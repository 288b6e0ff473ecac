//! The unfolding engine: tokenizing import statements, expanding brace
//! groups, and the recursive inliner over a file table.
use vstd::prelude::*;

use crate::model::expand_children;
use crate::model::expand_from;
use crate::model::expand_toks;
use crate::model::lemma_pieces_skip_le;
use crate::model::lemma_pieces_skip_step;
use crate::model::pieces_chars;
use crate::model::lemma_skip_last_tok;
use crate::model::lemma_skip_step_tok;
use crate::model::lemma_split_cc_chars;
use crate::model::lemma_split_commas_chars;
use crate::model::split_cc;
use crate::model::split_cc_from;
use crate::model::split_commas;
use crate::model::split_commas_from;
use crate::model::toks_chars;
use crate::model::count_supers_from;
use crate::model::covered;
use crate::model::emitted;
use crate::model::gather_stmt;
use crate::model::initial_state;
use crate::model::join_cc;
use crate::model::keeps;
use crate::model::lemma_join_snoc;
use crate::model::lemma_plain_split_nonempty;
use crate::model::plain_split;
use crate::model::render_list;
use crate::model::render_uses;
use crate::model::UnfoldState;
use crate::model::use_line;
use crate::model::dir_of;
use crate::model::fs_keys;
use crate::model::handle_imports;
use crate::model::is_directive;
use crate::model::is_mod_decl;
use crate::model::lemma_fs_keys_finite;
use crate::model::lemma_fs_lookup_in_keys;
use crate::model::lemma_rem_count_mono;
use crate::model::lemma_to_set_push;
use crate::model::process_file;
use crate::model::rem_count;
use crate::model::run_lines;
use crate::model::spec_unfold;
use crate::model::tokens_of;
use crate::model::use_offset;
use crate::model::fs_lookup;
use crate::model::item_dropped;
use crate::model::join_cc_from;
use crate::model::join_rs;
use crate::model::resolve;
use crate::model::Ctx;
use crate::model::Resolution;
use crate::model::Scan;
use crate::model::scan_stmt;
use crate::model::scan_stmt_from;
use crate::model::lex_lt;
use crate::model::lemma_lex_asym;
use crate::model::lemma_lex_total;
use crate::model::ModelErr;
use crate::model::slash_split;
use crate::model::sorted_insert;
use crate::strings::concat_tokens;
use crate::strings::join_path;
use crate::strings::split_lines;
use crate::strings::split_plain;
use crate::strings::split_tokens;
use crate::strings::path_segments;
use crate::strings::str_eq;
use crate::strings::str_lt;

verus! {

/// A malformed import statement: unbalanced braces, a brace group before the
/// final position, an empty path segment, or a missing terminator.
#[derive(Debug)]
pub struct ParseError;

/// Splits an import path at `::` separators that stand outside every brace
/// group; reports the unbalanced braces that the model refuses.
pub fn split_by_coloncolon(import_path: String) -> (r: Result<Vec<String>, ParseError>)
    ensures
        match r {
            Ok(v) => split_cc(import_path@) == Some(v.deep_view()),
            Err(_) => split_cc(import_path@) is None,
        },
{
    let s = import_path.as_str();
    let n = s.unicode_len();
    let mut out: Vec<String> = Vec::new();
    let mut depth: usize = 0;
    let mut seg_start: usize = 0;
    let mut i: usize = 0;
    proof {
        assert(s@.subrange(0, 0) =~= Seq::<char>::empty());
        assert(out.deep_view() =~= Seq::<Seq<char>>::empty());
        assert(forall|r: Seq<Seq<char>>| Seq::<Seq<char>>::empty() + r =~= r);
    }
    loop
        invariant
            s@ == import_path@,
            n == s@.len(),
            seg_start <= i <= n,
            depth <= i,
            split_cc(s@) == (match split_cc_from(
                s@,
                i as int,
                depth as int,
                s@.subrange(seg_start as int, i as int),
            ) {
                Some(rest) => Some(out.deep_view() + rest),
                None => None::<Seq<Seq<char>>>,
            }),
        decreases n - i,
    {
        let ghost cur = s@.subrange(seg_start as int, i as int);
        if i >= n {
            if depth == 0 {
                let tok = s.substring_char(seg_start, n).to_owned();
                let ghost old_out = out.deep_view();
                out.push(tok);
                proof {
                    assert(split_cc_from(s@, n as int, 0, cur) == Some(seq![cur]));
                    assert(out.deep_view() =~= old_out + seq![cur]);
                    assert(old_out + seq![cur] =~= split_cc(s@)->Some_0);
                }
                return Ok(out);
            } else {
                proof {
                    assert(split_cc_from(s@, n as int, depth as int, cur) is None);
                }
                return Err(ParseError);
            }
        }
        let c = s.get_char(i);
        proof {
            if c != '{' && c != '}' && !(c == ':' && depth == 0 && i + 1 < n && s@[i as int + 1]
                == ':') {
                assert(cur.push(s@[i as int]) =~= s@.subrange(seg_start as int, i as int + 1));
            }
        }
        if c == '{' {
            proof {
                assert(cur.push('{') =~= s@.subrange(seg_start as int, i as int + 1));
            }
            depth += 1;
            i += 1;
        } else if c == '}' {
            if depth == 0 {
                proof {
                    assert(split_cc_from(s@, i as int + 1, -1, cur.push('}')) is None);
                }
                return Err(ParseError);
            }
            proof {
                assert(cur.push('}') =~= s@.subrange(seg_start as int, i as int + 1));
            }
            depth -= 1;
            i += 1;
        } else if c == ':' && depth == 0 && i + 1 < n && s.get_char(i + 1) == ':' {
            let tok = s.substring_char(seg_start, i).to_owned();
            let ghost old_out = out.deep_view();
            out.push(tok);
            proof {
                assert(out.deep_view() =~= old_out + seq![cur]);
                assert(s@.subrange(i as int + 2, i as int + 2) =~= Seq::<char>::empty());
                assert(forall|rest: Seq<Seq<char>>|
                    old_out + (seq![cur] + rest) =~= (old_out + seq![cur]) + rest);
            }
            seg_start = i + 2;
            i += 2;
        } else {
            i += 1;
        }
    }
}

/// Splits the interior of a brace group at top-level commas; reports the
/// unbalanced braces that the model refuses.
pub fn split_group_commas(inner: &str) -> (r: Result<Vec<String>, ParseError>)
    ensures
        match r {
            Ok(v) => split_commas(inner@) == Some(v.deep_view()),
            Err(_) => split_commas(inner@) is None,
        },
{
    let s = inner;
    let n = s.unicode_len();
    let mut out: Vec<String> = Vec::new();
    let mut depth: usize = 0;
    let mut seg_start: usize = 0;
    let mut i: usize = 0;
    proof {
        assert(s@.subrange(0, 0) =~= Seq::<char>::empty());
        assert(out.deep_view() =~= Seq::<Seq<char>>::empty());
        assert(forall|r: Seq<Seq<char>>| Seq::<Seq<char>>::empty() + r =~= r);
    }
    loop
        invariant
            s@ == inner@,
            n == s@.len(),
            seg_start <= i <= n,
            depth <= i,
            split_commas(s@) == (match split_commas_from(
                s@,
                i as int,
                depth as int,
                s@.subrange(seg_start as int, i as int),
            ) {
                Some(rest) => Some(out.deep_view() + rest),
                None => None::<Seq<Seq<char>>>,
            }),
        decreases n - i,
    {
        let ghost cur = s@.subrange(seg_start as int, i as int);
        if i >= n {
            if depth == 0 {
                let tok = s.substring_char(seg_start, n).to_owned();
                let ghost old_out = out.deep_view();
                out.push(tok);
                proof {
                    assert(split_commas_from(s@, n as int, 0, cur) == Some(seq![cur]));
                    assert(out.deep_view() =~= old_out + seq![cur]);
                    assert(old_out + seq![cur] =~= split_commas(s@)->Some_0);
                }
                return Ok(out);
            } else {
                proof {
                    assert(split_commas_from(s@, n as int, depth as int, cur) is None);
                }
                return Err(ParseError);
            }
        }
        let c = s.get_char(i);
        proof {
            if c != '{' && c != '}' && !(c == ',' && depth == 0) {
                assert(cur.push(s@[i as int]) =~= s@.subrange(seg_start as int, i as int + 1));
            }
        }
        if c == '{' {
            proof {
                assert(cur.push('{') =~= s@.subrange(seg_start as int, i as int + 1));
            }
            depth += 1;
            i += 1;
        } else if c == '}' {
            if depth == 0 {
                proof {
                    assert(split_commas_from(s@, i as int + 1, -1, cur.push('}')) is None);
                }
                return Err(ParseError);
            }
            proof {
                assert(cur.push('}') =~= s@.subrange(seg_start as int, i as int + 1));
            }
            depth -= 1;
            i += 1;
        } else if c == ',' && depth == 0 {
            let tok = s.substring_char(seg_start, i).to_owned();
            let ghost old_out = out.deep_view();
            out.push(tok);
            proof {
                assert(out.deep_view() =~= old_out + seq![cur]);
                assert(s@.subrange(i as int + 1, i as int + 1) =~= Seq::<char>::empty());
                assert(forall|rest: Seq<Seq<char>>|
                    old_out + (seq![cur] + rest) =~= (old_out + seq![cur]) + rest);
            }
            seg_start = i + 1;
            i += 1;
        } else {
            i += 1;
        }
    }
}

/// Expands the token tail `import_path_v[idx..]` under the already-expanded
/// prefix `now`, as the model's expansion does.
pub fn unfold_curly_bracket_rec(now: &Vec<String>, idx: usize, import_path_v: &Vec<String>) -> (r:
    Result<Vec<Vec<String>>, ParseError>)
    ensures
        match r {
            Ok(v) => expand_from(import_path_v.deep_view(), idx as int, now.deep_view()) == Some(
                v.deep_view(),
            ),
            Err(_) => expand_from(import_path_v.deep_view(), idx as int, now.deep_view()) is None,
        },
    decreases toks_chars(import_path_v.deep_view().skip(idx as int)),
{
    let ghost ts = import_path_v.deep_view();
    let ghost prefix = now.deep_view();
    if idx >= import_path_v.len() {
        let mut one: Vec<Vec<String>> = Vec::new();
        one.push(now.clone());
        proof {
            assert(one.deep_view() =~= seq![prefix]);
        }
        return Ok(one);
    }
    let t = &import_path_v[idx];
    let t_len = t.as_str().unicode_len();
    proof {
        assert(ts[idx as int] == t@);
    }
    if t_len == 0 {
        return Err(ParseError);
    }
    if t.as_str().get_char(0) == '{' {
        if idx != import_path_v.len() - 1 || t_len < 2 || t.as_str().get_char(t_len - 1) != '}' {
            proof {
                assert(t@.last() == t@[t_len as int - 1]);
            }
            return Err(ParseError);
        }
        proof {
            assert(t@.last() == t@[t_len as int - 1]);
        }
        let inner = t.as_str().substring_char(1, t_len - 1);
        let ghost inner_s = t@.subrange(1, t@.len() - 1);
        let children = match split_group_commas(inner) {
            Ok(v) => v,
            Err(e) => {
                return Err(e);
            },
        };
        let ghost cd = children.deep_view();
        let mut acc: Vec<Vec<String>> = Vec::new();
        let mut k: usize = 0;
        proof {
            assert(acc.deep_view() =~= Seq::<Seq<Seq<char>>>::empty());
            assert(forall|r: Seq<Seq<Seq<char>>>| Seq::<Seq<Seq<char>>>::empty() + r =~= r);
        }
        while k < children.len()
            invariant
                k <= children.len(),
                cd == children.deep_view(),
                ts == import_path_v.deep_view(),
                prefix == now.deep_view(),
                0 <= idx < ts.len(),
                idx == ts.len() - 1,
                ts[idx as int].len() >= 2,
                ts[idx as int][0] == '{',
                split_commas(ts[idx as int].subrange(1, ts[idx as int].len() - 1)) == Some(cd),
                expand_children(cd, 0, prefix) == (match expand_children(cd, k as int, prefix) {
                    Some(rest) => Some(acc.deep_view() + rest),
                    None => None::<Seq<Seq<Seq<char>>>>,
                }),
            decreases children.len() - k,
        {
            proof {
                assert(cd[k as int] == children@[k as int]@);
            }
            let ctoks = match split_by_coloncolon(children[k].clone()) {
                Ok(v) => v,
                Err(e) => {
                    return Err(e);
                },
            };
            proof {
                let inner_s = ts[idx as int].subrange(1, ts[idx as int].len() - 1);
                lemma_split_commas_chars(inner_s, 0, 0, Seq::empty());
                assert(pieces_chars(cd) <= 1 + inner_s.len());
                lemma_pieces_skip_le(cd, k as int);
                lemma_pieces_skip_step(cd, k as int);
                assert(cd[k as int].len() + 1 <= pieces_chars(cd));
                lemma_split_cc_chars(cd[k as int], 0, 0, Seq::empty());
                assert(toks_chars(ctoks.deep_view()) <= cd[k as int].len());
                lemma_skip_last_tok(ts, idx as int);
                assert(toks_chars(ts.skip(idx as int)) == ts[idx as int].len());
                assert(ctoks.deep_view().skip(0) =~= ctoks.deep_view());
                assert(toks_chars(ctoks.deep_view()) < toks_chars(ts.skip(idx as int)));
            }
            let exps = match unfold_curly_bracket_rec(now, 0, &ctoks) {
                Ok(v) => v,
                Err(e) => {
                    return Err(e);
                },
            };
            let ghost old_acc = acc.deep_view();
            let ghost exps_d = exps.deep_view();
            let mut exps_m = exps;
            acc.append(&mut exps_m);
            proof {
                assert(acc.deep_view() =~= old_acc + exps_d);
                assert(forall|rest: Seq<Seq<Seq<char>>>|
                    old_acc + (exps_d + rest) =~= (old_acc + exps_d) + rest);
            }
            k += 1;
        }
        proof {
            assert(expand_children(cd, children.len() as int, prefix) == Some(
                Seq::<Seq<Seq<char>>>::empty(),
            ));
            assert(acc.deep_view() + Seq::<Seq<Seq<char>>>::empty() =~= acc.deep_view());
        }
        Ok(acc)
    } else {
        let mut now2 = now.clone();
        now2.push(t.clone());
        proof {
            assert(now2.deep_view() =~= prefix.push(t@));
            lemma_skip_step_tok(ts, idx as int);
        }
        unfold_curly_bracket_rec(&now2, idx + 1, import_path_v)
    }
}

/// A failed unfolding run, with the offending file path.
#[derive(Debug)]
pub enum UnfoldError {
    /// The entry file or a resolved internal module is not in the file table.
    UnreadableFile { path: Vec<String> },
    /// An import statement in this file is malformed.
    MalformedImport { path: Vec<String> },
}

impl View for UnfoldError {
    type V = ModelErr;

    open spec fn view(&self) -> ModelErr {
        match self {
            UnfoldError::UnreadableFile { path } => ModelErr::Unreadable {
                path: path.deep_view(),
            },
            UnfoldError::MalformedImport { path } => ModelErr::Malformed {
                path: path.deep_view(),
            },
        }
    }
}

/// The sources handed to an unfolding run: each file's path as segments,
/// with its text. Lookups return the first entry under a path.
pub struct FileTable {
    pub entries: Vec<(Vec<String>, String)>,
}

impl View for FileTable {
    type V = Seq<(Seq<Seq<char>>, Seq<char>)>;

    open spec fn view(&self) -> Seq<(Seq<Seq<char>>, Seq<char>)> {
        self.entries.deep_view()
    }
}

/// Compares two segment paths.
pub fn segs_eq(a: &Vec<String>, b: &Vec<String>) -> (r: bool)
    ensures
        r == (a.deep_view() == b.deep_view()),
{
    if a.len() != b.len() {
        proof {
            assert(a.deep_view().len() != b.deep_view().len());
        }
        return false;
    }
    let mut j: usize = 0;
    while j < a.len()
        invariant
            a.len() == b.len(),
            j <= a.len(),
            forall|m: int| 0 <= m < j ==> a.deep_view()[m] == b.deep_view()[m],
        decreases a.len() - j,
    {
        if !str_eq(a[j].as_str(), b[j].as_str()) {
            proof {
                assert(a.deep_view()[j as int] != b.deep_view()[j as int]);
            }
            return false;
        }
        j += 1;
    }
    proof {
        assert(a.deep_view() =~= b.deep_view());
    }
    true
}

impl FileTable {
    /// An empty table.
    pub fn new() -> (t: FileTable)
        ensures
            t@ == Seq::<(Seq<Seq<char>>, Seq<char>)>::empty(),
    {
        let t = FileTable { entries: Vec::new() };
        proof {
            assert(t@ =~= Seq::<(Seq<Seq<char>>, Seq<char>)>::empty());
        }
        t
    }

    /// Appends a file under a segment path.
    pub fn add(&mut self, path: Vec<String>, content: String)
        ensures
            final(self)@ == old(self)@.push((path.deep_view(), content@)),
    {
        let ghost old_v = self@;
        self.entries.push((path, content));
        proof {
            assert(self@ =~= old_v.push((self.entries@.last().0.deep_view(), self.entries@.last().1@)));
        }
    }

    /// Appends a file under a `/`-separated path.
    pub fn add_str(&mut self, path: &str, content: &str)
        ensures
            final(self)@ == old(self)@.push((slash_split(path@), content@)),
    {
        let segs = path_segments(path);
        self.add(segs, content.to_owned());
    }

    /// The first content stored under a path, as the model looks it up.
    pub fn get(&self, path: &Vec<String>) -> (r: Option<&String>)
        ensures
            match r {
                Some(c) => fs_lookup(self@, path.deep_view()) == Some(c@),
                None => fs_lookup(self@, path.deep_view()) is None,
            },
    {
        let ghost p = path.deep_view();
        let mut j: usize = 0;
        proof {
            assert(self@.skip(0) =~= self@);
        }
        loop
            invariant
                j <= self.entries.len(),
                p == path.deep_view(),
                fs_lookup(self@, p) == fs_lookup(self@.skip(j as int), p),
            decreases self.entries.len() - j,
        {
            if j >= self.entries.len() {
                proof {
                    assert(self@.skip(j as int).len() == 0);
                }
                return None;
            }
            proof {
                assert(self@.skip(j as int)[0] == self@[j as int]);
                assert(self@.skip(j as int).drop_first() =~= self@.skip(j as int + 1));
                assert(self@[j as int].0 == self.entries@[j as int].0.deep_view());
                assert(self@[j as int].1 == self.entries@[j as int].1@);
            }
            if segs_eq(&self.entries[j].0, path) {
                return Some(&self.entries[j].1);
            }
            j += 1;
        }
    }
}

/// Whether a segment path stands in a list of paths.
pub fn contains_path(v: &Vec<Vec<String>>, x: &Vec<String>) -> (r: bool)
    ensures
        r == v.deep_view().to_set().contains(x.deep_view()),
{
    let mut j: usize = 0;
    while j < v.len()
        invariant
            j <= v.len(),
            forall|m: int| 0 <= m < j ==> v.deep_view()[m] != x.deep_view(),
        decreases v.len() - j,
    {
        if segs_eq(&v[j], x) {
            proof {
                assert(v.deep_view()[j as int] == x.deep_view());
            }
            return true;
        }
        j += 1;
    }
    proof {
        assert(!v.deep_view().contains(x.deep_view()));
    }
    false
}

/// Whether a string stands in a list of strings.
pub fn contains_string(v: &Vec<String>, x: &str) -> (r: bool)
    ensures
        r == v.deep_view().contains(x@),
{
    let mut j: usize = 0;
    while j < v.len()
        invariant
            j <= v.len(),
            forall|m: int| 0 <= m < j ==> v.deep_view()[m] != x@,
        decreases v.len() - j,
    {
        if str_eq(v[j].as_str(), x) {
            proof {
                assert(v.deep_view()[j as int] == x@);
            }
            return true;
        }
        j += 1;
    }
    proof {
        assert(!v.deep_view().contains(x@));
    }
    false
}

/// Inserts a string into a sorted list as the model's sorted insertion does.
pub fn insert_sorted(v: &mut Vec<String>, x: String)
    ensures
        final(v).deep_view() == sorted_insert(old(v).deep_view(), x@),
{
    let ghost s0 = v.deep_view();
    let mut k: usize = 0;
    proof {
        assert(s0.skip(0) =~= s0);
        assert(s0.take(0) =~= Seq::<Seq<char>>::empty());
        assert(forall|r: Seq<Seq<char>>| Seq::<Seq<char>>::empty() + r =~= r);
    }
    loop
        invariant
            k <= v.len(),
            s0 == v.deep_view(),
            s0 == old(v).deep_view(),
            sorted_insert(s0, x@) == s0.take(k as int) + sorted_insert(s0.skip(k as int), x@),
        decreases v.len() - k,
    {
        if k >= v.len() {
            let ghost old_v = v.deep_view();
            v.push(x);
            proof {
                assert(s0.skip(k as int).len() == 0);
                assert(sorted_insert(s0.skip(k as int), x@) == seq![x@]);
                assert(v.deep_view() =~= s0.take(k as int) + seq![x@]);
            }
            return ;
        }
        proof {
            assert(s0.skip(k as int)[0] == s0[k as int]);
            assert(s0[k as int] == v.deep_view()[k as int]);
        }
        if str_eq(v[k].as_str(), x.as_str()) {
            proof {
                assert(sorted_insert(s0.skip(k as int), x@) == s0.skip(k as int));
                assert(s0.take(k as int) + s0.skip(k as int) =~= s0);
            }
            return ;
        }
        if str_lt(v[k].as_str(), x.as_str()) {
            proof {
                lemma_lex_asym(s0[k as int], x@);
                assert(sorted_insert(s0.skip(k as int), x@) == seq![s0[k as int]] + sorted_insert(
                    s0.skip(k as int).drop_first(),
                    x@,
                ));
                assert(s0.skip(k as int).drop_first() =~= s0.skip(k as int + 1));
                assert(s0.take(k as int + 1) =~= s0.take(k as int) + seq![s0[k as int]]);
                assert(s0.take(k as int) + (seq![s0[k as int]] + sorted_insert(
                    s0.skip(k as int + 1),
                    x@,
                )) =~= (s0.take(k as int) + seq![s0[k as int]]) + sorted_insert(
                    s0.skip(k as int + 1),
                    x@,
                ));
            }
            k += 1;
        } else {
            proof {
                lemma_lex_total(x@, s0[k as int]);
                assert(lex_lt(x@, s0[k as int]));
                assert(sorted_insert(s0.skip(k as int), x@) == seq![x@] + s0.skip(k as int));
            }
            let ghost old_v = v.deep_view();
            v.insert(k, x);
            proof {
                assert(v.deep_view() =~= s0.take(k as int) + (seq![x@] + s0.skip(k as int)));
            }
            return ;
        }
    }
}

/// Expands every brace group in a tokenized import path into the full list
/// of segment paths, in textual order.
pub fn unfold_curly_bracket(import_path_v: &Vec<String>) -> (r: Result<
    Vec<Vec<String>>,
    ParseError,
>)
    ensures
        match r {
            Ok(v) => expand_toks(import_path_v.deep_view()) == Some(v.deep_view()),
            Err(_) => expand_toks(import_path_v.deep_view()) is None,
        },
{
    let empty: Vec<String> = Vec::new();
    proof {
        assert(empty.deep_view() =~= Seq::<Seq<char>>::empty());
    }
    unfold_curly_bracket_rec(&empty, 0, import_path_v)
}

/// The number of leading `super` segments of an import path.
pub fn count_supers(segs: &Vec<String>) -> (c: usize)
    ensures
        c == count_supers_from(segs.deep_view(), 0),
        c <= segs.len(),
{
    let ghost sd = segs.deep_view();
    let mut sc: usize = 0;
    loop
        invariant
            sc <= segs.len(),
            sd == segs.deep_view(),
            count_supers_from(sd, 0) == count_supers_from(sd, sc as int),
        decreases segs.len() - sc,
    {
        if sc >= segs.len() {
            return sc;
        }
        proof {
            assert(sd[sc as int] == segs@[sc as int]@);
        }
        if !str_eq(segs[sc].as_str(), "super") {
            return sc;
        }
        sc += 1;
    }
}

/// The segments `segs[ofs..]` with the trailing item name dropped.
pub fn tail_segments(segs: &Vec<String>, ofs: usize) -> (r: Vec<String>)
    ensures
        r.deep_view() == item_dropped(segs.deep_view(), ofs as int),
{
    let ghost sd = segs.deep_view();
    let mut r: Vec<String> = Vec::new();
    if segs.len() == 0 || ofs > segs.len() - 1 {
        proof {
            assert(r.deep_view() =~= item_dropped(sd, ofs as int));
        }
        return r;
    }
    let upto = segs.len() - 1;
    let mut j = ofs;
    while j < upto
        invariant
            ofs <= j <= upto,
            upto == segs.len() - 1,
            sd == segs.deep_view(),
            r.deep_view() == sd.subrange(ofs as int, j as int),
        decreases upto - j,
    {
        let ghost old_r = r.deep_view();
        proof {
            assert(sd[j as int] == segs@[j as int]@);
        }
        r.push(segs[j].clone());
        proof {
            assert(r.deep_view() =~= old_r.push(sd[j as int]));
            assert(sd.subrange(ofs as int, j as int).push(sd[j as int]) =~= sd.subrange(
                ofs as int,
                j as int + 1,
            ));
        }
        j += 1;
    }
    proof {
        assert(r.deep_view() =~= item_dropped(sd, ofs as int));
    }
    r
}

/// Appends module segments to a base directory, adding `.rs` to the last.
pub fn join_module_path(base: &Vec<String>, rest: &Vec<String>) -> (r: Vec<String>)
    ensures
        r.deep_view() == join_rs(base.deep_view(), rest.deep_view()),
{
    let ghost bd = base.deep_view();
    let ghost rd = rest.deep_view();
    let mut r = base.clone();
    proof {
        assert(r.deep_view() =~= bd);
    }
    if rest.len() == 0 {
        return r;
    }
    let mut j: usize = 0;
    let upto = rest.len() - 1;
    while j < upto
        invariant
            j <= upto,
            upto == rest.len() - 1,
            bd == base.deep_view(),
            rd == rest.deep_view(),
            r.deep_view() == bd + rd.subrange(0, j as int),
        decreases upto - j,
    {
        let ghost old_r = r.deep_view();
        proof {
            assert(rd[j as int] == rest@[j as int]@);
        }
        r.push(rest[j].clone());
        proof {
            assert(r.deep_view() =~= old_r.push(rd[j as int]));
            assert((bd + rd.subrange(0, j as int)).push(rd[j as int]) =~= bd + rd.subrange(
                0,
                j as int + 1,
            ));
        }
        j += 1;
    }
    let ghost old_r = r.deep_view();
    let mut last = rest[upto].clone();
    last.append(".rs");
    proof {
        assert(rd[upto as int] == rest@[upto as int]@);
        assert(last@ == rd[upto as int] + ".rs"@);
    }
    r.push(last);
    proof {
        assert(r.deep_view() =~= old_r.push(rd[upto as int] + ".rs"@));
        assert(r.deep_view() =~= join_rs(bd, rd));
    }
    r
}

/// What one expanded import path stands for, as executable data.
pub enum Resolved {
    External { path: String, star: bool },
    Internal { file: Vec<String> },
    Invalid,
}

/// Classifies one expanded import path against the model's resolution.
pub fn resolve_import(alias: &String, lib: &Vec<String>, cur_dir: &Vec<String>, segs: &Vec<
    String,
>) -> (r: Resolved)
    ensures
        ({
            let m = resolve(
                Ctx { alias: alias@, lib: lib.deep_view() },
                cur_dir.deep_view(),
                segs.deep_view(),
            );
            match r {
                Resolved::External { path, star } => m == (Resolution::External {
                    path: path@,
                    star,
                }),
                Resolved::Internal { file } => m == (Resolution::Internal {
                    file: file.deep_view(),
                }),
                Resolved::Invalid => m == Resolution::Invalid,
            }
        }),
{
    let ghost sd = segs.deep_view();
    proof {
        if segs.len() > 0 {
            assert(sd[0] == segs@[0]@);
        }
    }
    if segs.len() > 0 && str_eq(segs[0].as_str(), "super") {
        let sc = count_supers(segs);
        proof {
            assert(count_supers_from(sd, 0) >= 1) by {
                assert(count_supers_from(sd, 0) == count_supers_from(sd, 1));
                lemma_count_supers_bounds(sd, 1);
            }
        }
        if sc - 1 > cur_dir.len() {
            return Resolved::Invalid;
        }
        let keep = cur_dir.len() - (sc - 1);
        let mut base: Vec<String> = Vec::new();
        let mut j: usize = 0;
        proof {
            assert(base.deep_view() =~= cur_dir.deep_view().subrange(0, 0));
        }
        while j < keep
            invariant
                j <= keep,
                keep <= cur_dir.len(),
                base.deep_view() == cur_dir.deep_view().subrange(0, j as int),
            decreases keep - j,
        {
            let ghost old_b = base.deep_view();
            proof {
                assert(cur_dir.deep_view()[j as int] == cur_dir@[j as int]@);
            }
            base.push(cur_dir[j].clone());
            proof {
                assert(base.deep_view() =~= old_b.push(cur_dir.deep_view()[j as int]));
                assert(cur_dir.deep_view().subrange(0, j as int).push(
                    cur_dir.deep_view()[j as int],
                ) =~= cur_dir.deep_view().subrange(0, j as int + 1));
            }
            j += 1;
        }
        proof {
            assert(base.deep_view() == cur_dir.deep_view().take(
                cur_dir.deep_view().len() - (count_supers_from(sd, 0) - 1),
            ));
        }
        let rest = tail_segments(segs, sc);
        let file = join_module_path(&base, &rest);
        Resolved::Internal { file }
    } else if segs.len() > 0 && str_eq(segs[0].as_str(), alias.as_str()) {
        let rest = tail_segments(segs, 1);
        let file = join_module_path(lib, &rest);
        Resolved::Internal { file }
    } else if segs.len() >= 2 && str_eq(segs[0].as_str(), "crate") && str_eq(
        segs[1].as_str(),
        alias.as_str(),
    ) {
        proof {
            assert(sd[1] == segs@[1]@);
        }
        let rest = tail_segments(segs, 2);
        let file = join_module_path(lib, &rest);
        Resolved::Internal { file }
    } else {
        proof {
            if segs.len() >= 2 {
                assert(sd[1] == segs@[1]@);
            }
            if segs.len() > 0 {
                assert(sd.last() == segs@[segs@.len() - 1]@);
            }
        }
        let path = join_path(segs);
        let star = segs.len() > 0 && str_eq(segs[segs.len() - 1].as_str(), "*");
        Resolved::External { path, star }
    }
}

/// The outcome of scanning gathered statement text, as executable data.
pub enum ScanOutcome {
    Term(usize),
    Neg,
    Open,
}

/// Scans statement text for its terminator as the model does.
pub fn scan_statement(s: &str) -> (r: ScanOutcome)
    ensures
        match r {
            ScanOutcome::Term(j) => scan_stmt(s@) == Scan::Term(j as int) && j < s@.len(),
            ScanOutcome::Neg => scan_stmt(s@) == Scan::Neg,
            ScanOutcome::Open => scan_stmt(s@) == Scan::Open,
        },
{
    let n = s.unicode_len();
    let mut depth: usize = 0;
    let mut i: usize = 0;
    loop
        invariant
            n == s@.len(),
            i <= n,
            scan_stmt(s@) == scan_stmt_from(s@, i as int, depth as int),
            depth <= i,
        decreases n - i,
    {
        if i >= n {
            return ScanOutcome::Open;
        }
        let c = s.get_char(i);
        if c == ';' && depth == 0 {
            return ScanOutcome::Term(i);
        } else if c == '{' {
            depth += 1;
            i += 1;
        } else if c == '}' {
            if depth == 0 {
                proof {
                    assert(scan_stmt_from(s@, i as int + 1, -1) == Scan::Neg);
                }
                return ScanOutcome::Neg;
            }
            depth -= 1;
            i += 1;
        } else {
            i += 1;
        }
    }
}

pub proof fn lemma_count_supers_bounds(segs: Seq<Seq<char>>, i: int)
    requires
        0 <= i <= segs.len(),
    ensures
        i <= count_supers_from(segs, i) <= segs.len(),
    decreases segs.len() - i,
{
    if i < segs.len() && segs[i] == "super"@ {
        lemma_count_supers_bounds(segs, i + 1);
    }
}

/// Gathers one import statement's text: the joined tokens in `acc0`,
/// extended with the joined tokens of the lines from `start` on, until a
/// terminator appears. Yields the statement text and the first unconsumed
/// line.
pub fn gather_statement(lines: &Vec<String>, start: usize, acc0: String) -> (r: Result<
    (String, usize),
    ParseError,
>)
    requires
        start <= lines.len(),
    ensures
        match r {
            Ok(sn) => gather_stmt(lines.deep_view(), start as int, acc0@) == Some(
                (sn.0@, sn.1 as int),
            ) && start <= sn.1 <= lines.len(),
            Err(_) => gather_stmt(lines.deep_view(), start as int, acc0@) is None,
        },
{
    let ghost lines_d = lines.deep_view();
    let mut acc = acc0;
    let mut li = start;
    loop
        invariant
            start <= li <= lines.len(),
            lines_d == lines.deep_view(),
            gather_stmt(lines_d, start as int, acc0@) == gather_stmt(lines_d, li as int, acc@),
        decreases lines.len() - li,
    {
        match scan_statement(acc.as_str()) {
            ScanOutcome::Term(j) => {
                let stmt = acc.as_str().substring_char(0, j).to_owned();
                proof {
                    assert(stmt@ =~= acc@.take(j as int));
                }
                return Ok((stmt, li));
            },
            ScanOutcome::Neg => {
                return Err(ParseError);
            },
            ScanOutcome::Open => {
                if li >= lines.len() {
                    return Err(ParseError);
                }
                proof {
                    assert(lines_d[li as int] == lines@[li as int]@);
                }
                let toks = split_tokens(lines[li].as_str());
                let joined = concat_tokens(&toks, 0);
                acc.append(joined.as_str());
                li += 1;
            },
        }
    }
}

/// Whether some `::` prefix of a canonical path, extended with `::*`, stands
/// in the wildcard set.
pub fn covered_by_star(p: &String, star: &Vec<String>) -> (r: bool)
    ensures
        r == covered(p@, star.deep_view()),
{
    let ghost parts_d = plain_split(p@);
    let ghost star_d = star.deep_view();
    let parts = split_plain(p.as_str());
    proof {
        lemma_plain_split_nonempty(p@, 0, Seq::empty());
    }
    let mut cur = String::new();
    let mut k: usize = 0;
    while k < parts.len()
        invariant
            k <= parts.len(),
            parts_d == parts.deep_view(),
            parts_d == plain_split(p@),
            star_d == star.deep_view(),
            parts_d.len() > 0,
            k == 0 ==> cur@ == Seq::<char>::empty(),
            k > 0 ==> cur@ == join_cc(parts_d.take(k as int)),
            forall|m: int|
                1 <= m <= k ==> !star_d.contains(#[trigger] join_cc(parts_d.take(m)) + "::*"@),
        decreases parts.len() - k,
    {
        proof {
            assert(parts_d[k as int] == parts@[k as int]@);
        }
        if k != 0 {
            cur.append("::");
        }
        cur.append(parts[k].as_str());
        proof {
            if k == 0 {
                assert(parts_d.take(1).len() == 1);
                assert(join_cc_from(parts_d.take(1), 0) == parts_d.take(1)[0]);
                assert(cur@ =~= parts_d[0]);
            } else {
                lemma_join_snoc(parts_d, k as int);
            }
        }
        let probe = cur.clone().concat("::*");
        if contains_string(star, probe.as_str()) {
            proof {
                assert(probe@ == join_cc(parts_d.take(k as int + 1)) + "::*"@);
                assert(covered(p@, star_d)) by {
                    assert(1 <= k + 1 <= parts_d.len() && star_d.contains(
                        join_cc(plain_split(p@).take(k as int + 1)) + "::*"@,
                    ));
                }
            }
            return true;
        }
        k += 1;
    }
    proof {
        assert(!covered(p@, star_d)) by {
            if covered(p@, star_d) {
                let m = choose|m: int|
                    1 <= m <= plain_split(p@).len() && star_d.contains(
                        join_cc(plain_split(p@).take(m)) + "::*"@,
                    );
                assert(!star_d.contains(join_cc(parts_d.take(m)) + "::*"@));
            }
        }
    }
    false
}

/// One unfolding session: the session parameters and the traversal state,
/// with paths held as `/`-separated segments.
pub struct Unfold {
    /// The alias that marks an import as internal.
    pub library_import_name: String,
    /// The entry file, as path segments.
    pub file_path: Vec<String>,
    /// The library root directory, as path segments.
    pub library_path: Vec<String>,
    /// The explicit external imports gathered so far, sorted.
    pub used_lib: Vec<String>,
    /// The wildcard external imports gathered so far, sorted.
    pub used_lib_star: Vec<String>,
    /// The module files already inlined.
    pub unfolded_path: Vec<Vec<String>>,
}

impl Unfold {
    /// The resolution parameters of this session.
    pub open spec fn ctx(&self) -> Ctx {
        Ctx { alias: self.library_import_name@, lib: self.library_path.deep_view() }
    }

    /// The traversal state of this session.
    pub open spec fn st(&self) -> UnfoldState {
        UnfoldState {
            visited: self.unfolded_path.deep_view().to_set(),
            used: self.used_lib.deep_view(),
            star: self.used_lib_star.deep_view(),
        }
    }

    /// Builds a session from the resolved parameters: the entry file name,
    /// the internal alias, the source directory, and the library directory,
    /// which defaults to the alias under the source directory.
    pub fn from_args(
        src_name: String,
        library_import_name: String,
        file_dir: String,
        library_path: Option<String>,
    ) -> (u: Unfold)
        ensures
            u.library_import_name@ == library_import_name@,
            u.file_path.deep_view() == slash_split(file_dir@) + slash_split(src_name@),
            match library_path {
                Some(lp) => u.library_path.deep_view() == slash_split(lp@),
                None => u.library_path.deep_view() == slash_split(file_dir@) + slash_split(
                    library_import_name@,
                ),
            },
            u.st() == initial_state(),
    {
        let mut fp = path_segments(file_dir.as_str());
        let mut fp_tail = path_segments(src_name.as_str());
        let ghost fp_d = fp.deep_view();
        let ghost fp_tail_d = fp_tail.deep_view();
        fp.append(&mut fp_tail);
        proof {
            assert(fp.deep_view() =~= fp_d + fp_tail_d);
        }
        let lp: Vec<String> = match library_path {
            Some(p) => path_segments(p.as_str()),
            None => {
                let mut l = path_segments(file_dir.as_str());
                let mut l_tail = path_segments(library_import_name.as_str());
                let ghost l_d = l.deep_view();
                let ghost l_tail_d = l_tail.deep_view();
                l.append(&mut l_tail);
                proof {
                    assert(l.deep_view() =~= l_d + l_tail_d);
                }
                l
            },
        };
        let u = Unfold {
            library_import_name,
            file_path: fp,
            library_path: lp,
            used_lib: Vec::new(),
            used_lib_star: Vec::new(),
            unfolded_path: Vec::new(),
        };
        proof {
            assert(u.used_lib.deep_view() =~= Seq::<Seq<char>>::empty());
            assert(u.used_lib_star.deep_view() =~= Seq::<Seq<char>>::empty());
            assert(u.unfolded_path.deep_view() =~= Seq::<Seq<Seq<char>>>::empty());
            assert(u.unfolded_path.deep_view().to_set() =~= Set::<Seq<Seq<char>>>::empty());
        }
        u
    }

    /// Renders the merged external-import block: every wildcard import, then
    /// every explicit import not covered by a wildcard, in sorted order.
    pub fn unfold_use(&mut self) -> (r: Result<String, UnfoldError>)
        ensures
            *final(self) == *old(self),
            match r {
                Ok(s) => s@ == render_uses(
                    old(self).used_lib.deep_view(),
                    old(self).used_lib_star.deep_view(),
                ),
                Err(_) => false,
            },
    {
        let ghost used_d = self.used_lib.deep_view();
        let ghost star_d = self.used_lib_star.deep_view();
        let ghost em = emitted(used_d, star_d);
        let mut res = String::new();
        let mut j: usize = 0;
        proof {
            assert(star_d.len() <= em.len()) by {
                broadcast use Seq::lemma_filter_len;

            }
            assert(res@ + render_list(em, 0) =~= render_list(em, 0));
        }
        while j < self.used_lib_star.len()
            invariant
                *self == *old(self),
                j <= self.used_lib_star.len(),
                used_d == self.used_lib.deep_view(),
                star_d == self.used_lib_star.deep_view(),
                em == emitted(used_d, star_d),
                star_d.len() <= em.len(),
                render_list(em, 0) == res@ + render_list(em, j as int),
            decreases self.used_lib_star.len() - j,
        {
            proof {
                assert(em[j as int] == star_d[j as int]);
                assert(star_d[j as int] == self.used_lib_star@[j as int]@);
                assert(render_list(em, j as int) == use_line(em[j as int]) + render_list(
                    em,
                    j as int + 1,
                ));
            }
            let ghost old_res = res@;
            res.append("use ");
            res.append(self.used_lib_star[j].as_str());
            res.append(";\n");
            proof {
                assert(res@ =~= old_res + use_line(em[j as int]));
                assert(old_res + (use_line(em[j as int]) + render_list(em, j as int + 1)) =~= (
                old_res + use_line(em[j as int])) + render_list(em, j as int + 1));
            }
            j += 1;
        }
        let mut j2: usize = 0;
        let ghost mut pos: int = star_d.len() as int;
        proof {
            assert(used_d.take(0) =~= Seq::<Seq<char>>::empty());
            assert(Seq::<Seq<char>>::empty().filter(keeps(star_d)) =~= Seq::<Seq<char>>::empty())
                by {
                reveal(Seq::filter);
            }
        }
        while j2 < self.used_lib.len()
            invariant
                *self == *old(self),
                j2 <= self.used_lib.len(),
                used_d == self.used_lib.deep_view(),
                star_d == self.used_lib_star.deep_view(),
                em == emitted(used_d, star_d),
                pos == star_d.len() + used_d.take(j2 as int).filter(keeps(star_d)).len(),
                render_list(em, 0) == res@ + render_list(em, pos),
            decreases self.used_lib.len() - j2,
        {
            proof {
                assert(used_d[j2 as int] == self.used_lib@[j2 as int]@);
            }
            let is_covered = covered_by_star(&self.used_lib[j2], &self.used_lib_star);
            proof {
                let prev = used_d.take(j2 as int);
                let next = used_d.take(j2 as int + 1);
                assert(next.drop_last() =~= prev);
                assert(next.last() == used_d[j2 as int]);
                reveal(Seq::filter);
                if !is_covered {
                    assert(keeps(star_d)(used_d[j2 as int]));
                    assert(next.filter(keeps(star_d)) == prev.filter(keeps(star_d)).push(
                        used_d[j2 as int],
                    ));
                } else {
                    assert(!keeps(star_d)(used_d[j2 as int]));
                    assert(next.filter(keeps(star_d)) == prev.filter(keeps(star_d)));
                }
            }
            if !is_covered {
                proof {
                    let prev = used_d.take(j2 as int);
                    let next = used_d.take(j2 as int + 1);
                    assert(used_d =~= next + used_d.skip(j2 as int + 1));
                    Seq::filter_distributes_over_add(next, used_d.skip(j2 as int + 1), keeps(star_d));
                    assert(used_d.filter(keeps(star_d)) == next.filter(keeps(star_d)) + used_d.skip(
                        j2 as int + 1,
                    ).filter(keeps(star_d)));
                    assert(next.filter(keeps(star_d))[prev.filter(keeps(star_d)).len() as int]
                        == used_d[j2 as int]);
                    assert(em[pos] == used_d[j2 as int]);
                    assert(pos < em.len());
                    assert(render_list(em, pos) == use_line(em[pos]) + render_list(em, pos + 1));
                }
                let ghost old_res = res@;
                res.append("use ");
                res.append(self.used_lib[j2].as_str());
                res.append(";\n");
                proof {
                    assert(res@ =~= old_res + use_line(em[pos]));
                    assert(old_res + (use_line(em[pos]) + render_list(em, pos + 1)) =~= (old_res
                        + use_line(em[pos])) + render_list(em, pos + 1));
                    pos = pos + 1;
                }
            }
            j2 += 1;
        }
        proof {
            assert(used_d.take(used_d.len() as int) =~= used_d);
            assert(pos == em.len());
            assert(render_list(em, pos) =~= Seq::<char>::empty());
            assert(res@ + Seq::<char>::empty() =~= res@);
        }
        Ok(res)
    }

    /// Inlines one file: the model's walk over the file table from this
    /// session's current state, returning the file's inlined body and its
    /// inner directives.
    fn unfold_rec(&mut self, fs: &FileTable, file_path: &Vec<String>) -> (r: Result<
        (String, String),
        UnfoldError,
    >)
        ensures
            final(self).library_import_name == old(self).library_import_name,
            final(self).file_path == old(self).file_path,
            final(self).library_path == old(self).library_path,
            old(self).st().visited.subset_of(final(self).st().visited),
            match r {
                Ok(bd) => process_file(fs@, old(self).ctx(), file_path.deep_view(), old(self).st())
                    == Ok::<(Seq<char>, Seq<char>, UnfoldState), ModelErr>(
                    (bd.0@, bd.1@, final(self).st()),
                ),
                Err(e) => process_file(fs@, old(self).ctx(), file_path.deep_view(), old(self).st())
                    == Err::<(Seq<char>, Seq<char>, UnfoldState), ModelErr>(e@),
            },
        decreases rem_count(fs@, self.st().visited),
    {
        let ghost fs_d = fs@;
        let ghost ctx0 = self.ctx();
        let ghost st0 = self.st();
        let ghost cur = file_path.deep_view();
        let content: String = match fs.get(file_path) {
            Some(c) => c.clone(),
            None => {
                return Err(UnfoldError::UnreadableFile { path: file_path.clone() });
            },
        };
        let lines = split_lines(content.as_str());
        let ghost lines_d = lines.deep_view();
        proof {
            assert(process_file(fs_d, ctx0, cur, st0) == run_lines(
                fs_d,
                ctx0,
                cur,
                lines_d,
                0,
                Seq::empty(),
                Seq::empty(),
                st0,
            ));
        }
        let mut body = String::new();
        let mut dirs = String::new();
        let mut i: usize = 0;
        let n = lines.len();
        while i < n
            invariant
                n == lines.len(),
                i <= n,
                fs_d == fs@,
                lines_d == lines.deep_view(),
                cur == file_path.deep_view(),
                self.library_import_name == old(self).library_import_name,
                self.file_path == old(self).file_path,
                self.library_path == old(self).library_path,
                ctx0 == old(self).ctx(),
                ctx0 == self.ctx(),
                st0 == old(self).st(),
                st0.visited.subset_of(self.st().visited),
                run_lines(fs_d, ctx0, cur, lines_d, 0, Seq::empty(), Seq::empty(), st0)
                    == process_file(fs_d, ctx0, cur, st0),
                run_lines(fs_d, ctx0, cur, lines_d, 0, Seq::empty(), Seq::empty(), st0)
                    == run_lines(fs_d, ctx0, cur, lines_d, i as int, body@, dirs@, self.st()),
            decreases n - i,
        {
            proof {
                assert(lines_d[i as int] == lines@[i as int]@);
            }
            let toks = split_tokens(lines[i].as_str());
            let ghost toks_d = tokens_of(lines_d[i as int]);
            if toks.len() == 0 {
                proof {
                    assert(run_lines(fs_d, ctx0, cur, lines_d, i as int, body@, dirs@, self.st())
                        == run_lines(
                        fs_d,
                        ctx0,
                        cur,
                        lines_d,
                        i as int + 1,
                        body@ + "\n"@,
                        dirs@,
                        self.st(),
                    ));
                }
                body.append("\n");
                i += 1;
                continue ;
            }
            proof {
                assert(toks_d[0] == toks@[0]@);
                if toks.len() >= 2 {
                    assert(toks_d[1] == toks@[1]@);
                }
            }
            let is_mod = str_eq(toks[0].as_str(), "mod") || (toks.len() >= 2 && str_eq(
                toks[0].as_str(),
                "pub",
            ) && str_eq(toks[1].as_str(), "mod"));
            if is_mod {
                proof {
                    assert(is_mod_decl(toks_d));
                    assert(run_lines(fs_d, ctx0, cur, lines_d, i as int, body@, dirs@, self.st())
                        == run_lines(
                        fs_d,
                        ctx0,
                        cur,
                        lines_d,
                        i as int + 1,
                        body@,
                        dirs@,
                        self.st(),
                    ));
                }
                i += 1;
                continue ;
            }
            let t0n = toks[0].as_str().unicode_len();
            let is_dir = t0n >= 2 && toks[0].as_str().get_char(0) == '#' && toks[0].as_str()
                .get_char(1) == '!';
            if is_dir {
                proof {
                    assert(is_directive(toks_d));
                    assert(run_lines(fs_d, ctx0, cur, lines_d, i as int, body@, dirs@, self.st())
                        == run_lines(
                        fs_d,
                        ctx0,
                        cur,
                        lines_d,
                        i as int + 1,
                        body@,
                        dirs@ + lines_d[i as int] + "\n"@,
                        self.st(),
                    ));
                }
                dirs.append(lines[i].as_str());
                dirs.append("\n");
                i += 1;
                continue ;
            }
            proof {
                assert(!is_mod_decl(toks_d));
                assert(!is_directive(toks_d));
            }
            let use_ofs: Option<usize> = if str_eq(toks[0].as_str(), "use") {
                Some(0)
            } else if toks.len() >= 2 && str_eq(toks[0].as_str(), "pub") && str_eq(
                toks[1].as_str(),
                "use",
            ) {
                Some(1)
            } else {
                None
            };
            let ofs = match use_ofs {
                None => {
                    proof {
                        assert(use_offset(toks_d) is None);
                        assert(run_lines(
                            fs_d,
                            ctx0,
                            cur,
                            lines_d,
                            i as int,
                            body@,
                            dirs@,
                            self.st(),
                        ) == run_lines(
                            fs_d,
                            ctx0,
                            cur,
                            lines_d,
                            i as int + 1,
                            body@ + lines_d[i as int] + "\n"@,
                            dirs@,
                            self.st(),
                        ));
                    }
                    body.append(lines[i].as_str());
                    body.append("\n");
                    i += 1;
                    continue ;
                },
                Some(o) => o,
            };
            proof {
                assert(use_offset(toks_d) == Some(ofs as int));
            }
            let acc0 = concat_tokens(&toks, ofs + 1);
            let ghost acc0_d = acc0@;
            let gathered = match gather_statement(&lines, i + 1, acc0) {
                Ok(v) => v,
                Err(_) => {
                    proof {
                        assert(run_lines(
                            fs_d,
                            ctx0,
                            cur,
                            lines_d,
                            i as int,
                            body@,
                            dirs@,
                            self.st(),
                        ) == Err::<(Seq<char>, Seq<char>, UnfoldState), ModelErr>(
                            ModelErr::Malformed { path: cur },
                        ));
                    }
                    return Err(UnfoldError::MalformedImport { path: file_path.clone() });
                },
            };
            let (stmt, ni) = gathered;
            let ghost stmt_d = stmt@;
            let ts = match split_by_coloncolon(stmt) {
                Ok(v) => v,
                Err(_) => {
                    proof {
                        assert(run_lines(
                            fs_d,
                            ctx0,
                            cur,
                            lines_d,
                            i as int,
                            body@,
                            dirs@,
                            self.st(),
                        ) == Err::<(Seq<char>, Seq<char>, UnfoldState), ModelErr>(
                            ModelErr::Malformed { path: cur },
                        ));
                    }
                    return Err(UnfoldError::MalformedImport { path: file_path.clone() });
                },
            };
            let exps = match unfold_curly_bracket(&ts) {
                Ok(v) => v,
                Err(_) => {
                    proof {
                        assert(run_lines(
                            fs_d,
                            ctx0,
                            cur,
                            lines_d,
                            i as int,
                            body@,
                            dirs@,
                            self.st(),
                        ) == Err::<(Seq<char>, Seq<char>, UnfoldState), ModelErr>(
                            ModelErr::Malformed { path: cur },
                        ));
                    }
                    return Err(UnfoldError::MalformedImport { path: file_path.clone() });
                },
            };
            let ghost exps_d = exps.deep_view();
            let ghost st_entry = self.st();
            let ghost h = handle_imports(
                fs_d,
                ctx0,
                cur,
                lines_d,
                ni as int,
                exps_d,
                0,
                body@,
                dirs@,
                st_entry,
            );
            proof {
                assert(run_lines(fs_d, ctx0, cur, lines_d, i as int, body@, dirs@, self.st()) == (
                match h {
                    Err(e) => Err::<(Seq<char>, Seq<char>, UnfoldState), ModelErr>(e),
                    Ok((b2, d2, st2)) => run_lines(
                        fs_d,
                        ctx0,
                        cur,
                        lines_d,
                        ni as int,
                        b2,
                        d2,
                        UnfoldState {
                            visited: st_entry.visited.union(st2.visited),
                            used: st2.used,
                            star: st2.star,
                        },
                    ),
                }));
            }
            let mut cur_dir = file_path.clone();
            if cur_dir.len() > 0 {
                cur_dir.pop();
            }
            proof {
                assert(cur_dir.deep_view() =~= dir_of(cur));
            }
            let mut k: usize = 0;
            while k < exps.len()
                invariant
                    k <= exps.len(),
                    fs_d == fs@,
                    n == lines.len(),
                    i < ni <= n,
                    lines_d == lines.deep_view(),
                    cur == file_path.deep_view(),
                    cur_dir.deep_view() == dir_of(cur),
                    exps_d == exps.deep_view(),
                    self.library_import_name == old(self).library_import_name,
                    self.file_path == old(self).file_path,
                    self.library_path == old(self).library_path,
                    ctx0 == old(self).ctx(),
                    ctx0 == self.ctx(),
                    st0 == old(self).st(),
                    st0.visited.subset_of(st_entry.visited),
                    st_entry.visited.subset_of(self.st().visited),
                    run_lines(fs_d, ctx0, cur, lines_d, 0, Seq::empty(), Seq::empty(), st0)
                        == process_file(fs_d, ctx0, cur, st0),
                    h == handle_imports(
                        fs_d,
                        ctx0,
                        cur,
                        lines_d,
                        ni as int,
                        exps_d,
                        k as int,
                        body@,
                        dirs@,
                        self.st(),
                    ),
                    run_lines(fs_d, ctx0, cur, lines_d, 0, Seq::empty(), Seq::empty(), st0) == (
                    match h {
                        Err(e) => Err::<(Seq<char>, Seq<char>, UnfoldState), ModelErr>(e),
                        Ok((b2, d2, st2)) => run_lines(
                            fs_d,
                            ctx0,
                            cur,
                            lines_d,
                            ni as int,
                            b2,
                            d2,
                            UnfoldState {
                                visited: st_entry.visited.union(st2.visited),
                                used: st2.used,
                                star: st2.star,
                            },
                        ),
                    }),
                decreases exps.len() - k,
            {
                proof {
                    assert(exps_d[k as int] == exps@[k as int].deep_view());
                }
                let resolved = resolve_import(
                    &self.library_import_name,
                    &self.library_path,
                    &cur_dir,
                    &exps[k],
                );
                match resolved {
                    Resolved::Invalid => {
                        proof {
                            assert(h == Err::<(Seq<char>, Seq<char>, UnfoldState), ModelErr>(
                                ModelErr::Malformed { path: cur },
                            ));
                        }
                        return Err(UnfoldError::MalformedImport { path: file_path.clone() });
                    },
                    Resolved::External { path, star } => {
                        let ghost path_d = path@;
                        let ghost st_before = self.st();
                        if star {
                            insert_sorted(&mut self.used_lib_star, path);
                        } else {
                            insert_sorted(&mut self.used_lib, path);
                        }
                        proof {
                            if star {
                                assert(self.st() == UnfoldState {
                                    visited: st_before.visited,
                                    used: st_before.used,
                                    star: sorted_insert(st_before.star, path_d),
                                });
                            } else {
                                assert(self.st() == UnfoldState {
                                    visited: st_before.visited,
                                    used: sorted_insert(st_before.used, path_d),
                                    star: st_before.star,
                                });
                            }
                            assert(h == handle_imports(
                                fs_d,
                                ctx0,
                                cur,
                                lines_d,
                                ni as int,
                                exps_d,
                                k as int + 1,
                                body@,
                                dirs@,
                                self.st(),
                            ));
                        }
                    },
                    Resolved::Internal { file } => {
                        let ghost file_d = file.deep_view();
                        if contains_path(&self.unfolded_path, &file) {
                            proof {
                                assert(self.st().visited.contains(file_d));
                                assert(h == handle_imports(
                                    fs_d,
                                    ctx0,
                                    cur,
                                    lines_d,
                                    ni as int,
                                    exps_d,
                                    k as int + 1,
                                    body@,
                                    dirs@,
                                    self.st(),
                                ));
                            }
                        } else {
                            let ghost st_before = self.st();
                            let ghost old_dp = self.unfolded_path.deep_view();
                            self.unfolded_path.push(file.clone());
                            proof {
                                assert(self.unfolded_path.deep_view() =~= old_dp.push(file_d));
                                lemma_to_set_push(old_dp, file_d);
                                assert(self.st().visited == st_before.visited.insert(file_d));
                            }
                            if fs.get(&file).is_none() {
                                proof {
                                    assert(h == Err::<
                                        (Seq<char>, Seq<char>, UnfoldState),
                                        ModelErr,
                                    >(ModelErr::Unreadable { path: file_d }));
                                }
                                return Err(UnfoldError::UnreadableFile { path: file });
                            }
                            proof {
                                lemma_fs_keys_finite(fs_d);
                                lemma_fs_lookup_in_keys(fs_d, file_d);
                                fs_keys(fs_d).lemma_set_insert_diff_decreases(st0.visited, file_d);
                                lemma_rem_count_mono(
                                    fs_d,
                                    st0.visited.insert(file_d),
                                    self.st().visited,
                                );
                            }
                            let ghost st_ins = self.st();
                            let child = self.unfold_rec(fs, &file);
                            match child {
                                Err(e) => {
                                    proof {
                                        assert(h == Err::<
                                            (Seq<char>, Seq<char>, UnfoldState),
                                            ModelErr,
                                        >(e@));
                                    }
                                    return Err(e);
                                },
                                Ok(bd) => {
                                    let (cb, _cd) = bd;
                                    proof {
                                        assert(st_ins.visited.union(self.st().visited)
                                            =~= self.st().visited);
                                        assert(UnfoldState {
                                            visited: st_ins.visited.union(self.st().visited),
                                            used: self.st().used,
                                            star: self.st().star,
                                        } == self.st());
                                        assert(h == handle_imports(
                                            fs_d,
                                            ctx0,
                                            cur,
                                            lines_d,
                                            ni as int,
                                            exps_d,
                                            k as int + 1,
                                            body@ + cb@ + "\n"@,
                                            dirs@,
                                            self.st(),
                                        ));
                                    }
                                    body.append(cb.as_str());
                                    body.append("\n");
                                },
                            }
                        }
                    },
                }
                k += 1;
            }
            proof {
                assert(h == Ok::<(Seq<char>, Seq<char>, UnfoldState), ModelErr>(
                    (body@, dirs@, self.st()),
                ));
                assert(st_entry.visited.union(self.st().visited) =~= self.st().visited);
                assert(UnfoldState {
                    visited: st_entry.visited.union(self.st().visited),
                    used: self.st().used,
                    star: self.st().star,
                } == self.st());
                assert(run_lines(fs_d, ctx0, cur, lines_d, 0, Seq::empty(), Seq::empty(), st0)
                    == run_lines(fs_d, ctx0, cur, lines_d, ni as int, body@, dirs@, self.st()));
            }
            i = ni;
        }
        proof {
            assert(run_lines(fs_d, ctx0, cur, lines_d, n as int, body@, dirs@, self.st())
                == Ok::<(Seq<char>, Seq<char>, UnfoldState), ModelErr>((body@, dirs@, self.st())));
        }
        Ok((body, dirs))
    }

    /// Unfolds the session's entry file into one self-contained text: its
    /// inner directives, the merged external-import block, and the inlined
    /// body.
    pub fn unfold(&mut self, fs: &FileTable) -> (r: Result<String, UnfoldError>)
        ensures
            final(self).library_import_name == old(self).library_import_name,
            final(self).file_path == old(self).file_path,
            final(self).library_path == old(self).library_path,
            match r {
                Ok(s) => spec_unfold(
                    fs@,
                    old(self).ctx(),
                    old(self).file_path.deep_view(),
                    old(self).st(),
                ) == Ok::<Seq<char>, ModelErr>(s@) && (process_file(
                    fs@,
                    old(self).ctx(),
                    old(self).file_path.deep_view(),
                    old(self).st(),
                ) matches Ok(t) && final(self).st() == t.2),
                Err(e) => spec_unfold(
                    fs@,
                    old(self).ctx(),
                    old(self).file_path.deep_view(),
                    old(self).st(),
                ) == Err::<Seq<char>, ModelErr>(e@),
            },
    {
        let fp = self.file_path.clone();
        let bd = match self.unfold_rec(fs, &fp) {
            Ok(v) => v,
            Err(e) => {
                return Err(e);
            },
        };
        let uses = match self.unfold_use() {
            Ok(v) => v,
            Err(e) => {
                return Err(e);
            },
        };
        let ghost body_d = bd.0@;
        let ghost dirs_d = bd.1@;
        let ghost uses_d = uses@;
        let (body, dirs) = bd;
        let mut out = dirs;
        out.append(uses.as_str());
        out.append(body.as_str());
        proof {
            assert(out@ =~= dirs_d + render_uses(
                self.used_lib.deep_view(),
                self.used_lib_star.deep_view(),
            ) + body_d);
        }
        Ok(out)
    }
}

} // verus!
