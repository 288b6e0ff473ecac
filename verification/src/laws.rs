//! The laws of the unfolding engine, each proved against the model.
use vstd::prelude::*;

use crate::model::concat_from;
use crate::model::covered;
use crate::model::expand_children;
use crate::model::expand_from;
use crate::model::gather_stmt;
use crate::model::is_directive;
use crate::model::is_mod_decl;
use crate::model::join_cc_from;
use crate::model::lemma_ctoks_skip_zero;
use crate::model::lemma_pieces_skip_step;
use crate::model::lemma_skip_last_tok;
use crate::model::lemma_skip_step_tok;
use crate::model::lemma_split_cc_chars;
use crate::model::lemma_split_commas_chars;
use crate::model::lemma_lex_asym;
use crate::model::lemma_lex_total;
use crate::model::lex_lt;
use crate::model::lines_from;
use crate::model::pieces_chars;
use crate::model::Scan;
use crate::model::scan_stmt;
use crate::model::scan_stmt_from;
use crate::model::sorted_insert;
use crate::model::split_cc;
use crate::model::split_cc_from;
use crate::model::split_commas;
use crate::model::split_commas_from;
use crate::model::strip_cr;
use crate::model::tokens_from;
use crate::model::tokens_of;
use crate::model::toks_chars;
use crate::model::is_space_char;
use crate::model::dir_of;
use crate::model::emitted;
use crate::model::fs_lookup;
use crate::model::handle_imports;
use crate::model::item_dropped;
use crate::model::keeps;
use crate::model::expand_toks;
use crate::model::fs_keys;
use crate::model::initial_state;
use crate::model::lemma_fs_keys_finite;
use crate::model::lemma_fs_lookup_in_keys;
use crate::model::lemma_gather_bounds;
use crate::model::lemma_rem_count_mono;
use crate::model::lines_of;
use crate::model::rem_count;
use crate::model::render_list;
use crate::model::render_uses;
use crate::model::spec_unfold;
use crate::model::use_line;
use crate::model::use_offset;
use crate::model::resolve;
use crate::model::run_lines;
use crate::model::Ctx;
use crate::model::ModelErr;
use crate::model::Resolution;
use crate::model::UnfoldState;

verus! {

/// Inlining is idempotent: when two import paths of one statement resolve to
/// the same internal file, handling both of them yields exactly what
/// handling the first alone yields — the file's body is spliced in at most
/// once, and the state and output are the same.
pub proof fn lemma_inline_at_most_once(
    fs: Seq<(Seq<Seq<char>>, Seq<char>)>,
    ctx: Ctx,
    cur: Seq<Seq<char>>,
    lines: Seq<Seq<char>>,
    ni: int,
    e1: Seq<Seq<char>>,
    e2: Seq<Seq<char>>,
    body: Seq<char>,
    dirs: Seq<char>,
    st: UnfoldState,
    p: Seq<Seq<char>>,
)
    requires
        resolve(ctx, dir_of(cur), e1) == (Resolution::Internal { file: p }),
        resolve(ctx, dir_of(cur), e2) == (Resolution::Internal { file: p }),
    ensures
        handle_imports(fs, ctx, cur, lines, ni, seq![e1, e2], 0, body, dirs, st)
            == handle_imports(fs, ctx, cur, lines, ni, seq![e1], 0, body, dirs, st),
{
    let both = seq![e1, e2];
    let one = seq![e1];
    assert(both[0] == e1);
    assert(both[1] == e2);
    assert(one[0] == e1);
    if st.visited.contains(p) {
        assert(handle_imports(fs, ctx, cur, lines, ni, both, 0, body, dirs, st)
            == handle_imports(fs, ctx, cur, lines, ni, both, 1, body, dirs, st));
        assert(handle_imports(fs, ctx, cur, lines, ni, both, 1, body, dirs, st)
            == handle_imports(fs, ctx, cur, lines, ni, both, 2, body, dirs, st));
        assert(handle_imports(fs, ctx, cur, lines, ni, both, 2, body, dirs, st) == Ok::<
            (Seq<char>, Seq<char>, UnfoldState),
            ModelErr,
        >((body, dirs, st)));
        assert(handle_imports(fs, ctx, cur, lines, ni, one, 0, body, dirs, st)
            == handle_imports(fs, ctx, cur, lines, ni, one, 1, body, dirs, st));
        assert(handle_imports(fs, ctx, cur, lines, ni, one, 1, body, dirs, st) == Ok::<
            (Seq<char>, Seq<char>, UnfoldState),
            ModelErr,
        >((body, dirs, st)));
    } else {
        let st_ins = UnfoldState { visited: st.visited.insert(p), used: st.used, star: st.star };
        match fs_lookup(fs, p) {
            None => {
                assert(handle_imports(fs, ctx, cur, lines, ni, both, 0, body, dirs, st) == Err::<
                    (Seq<char>, Seq<char>, UnfoldState),
                    ModelErr,
                >(ModelErr::Unreadable { path: p }));
                assert(handle_imports(fs, ctx, cur, lines, ni, one, 0, body, dirs, st) == Err::<
                    (Seq<char>, Seq<char>, UnfoldState),
                    ModelErr,
                >(ModelErr::Unreadable { path: p }));
            },
            Some(content) => {
                match run_lines(
                    fs,
                    ctx,
                    p,
                    lines_of(content),
                    0,
                    Seq::empty(),
                    Seq::empty(),
                    st_ins,
                ) {
                    Err(e) => {
                        assert(handle_imports(fs, ctx, cur, lines, ni, both, 0, body, dirs, st)
                            == Err::<(Seq<char>, Seq<char>, UnfoldState), ModelErr>(e));
                        assert(handle_imports(fs, ctx, cur, lines, ni, one, 0, body, dirs, st)
                            == Err::<(Seq<char>, Seq<char>, UnfoldState), ModelErr>(e));
                    },
                    Ok((cb, cd, stc)) => {
                        let stz = UnfoldState {
                            visited: st_ins.visited.union(stc.visited),
                            used: stc.used,
                            star: stc.star,
                        };
                        let body2 = body + cb + "\n"@;
                        assert(stz.visited.contains(p));
                        assert(handle_imports(fs, ctx, cur, lines, ni, both, 0, body, dirs, st)
                            == handle_imports(fs, ctx, cur, lines, ni, both, 1, body2, dirs, stz));
                        assert(handle_imports(fs, ctx, cur, lines, ni, both, 1, body2, dirs, stz)
                            == handle_imports(fs, ctx, cur, lines, ni, both, 2, body2, dirs, stz));
                        assert(handle_imports(fs, ctx, cur, lines, ni, both, 2, body2, dirs, stz)
                            == Ok::<(Seq<char>, Seq<char>, UnfoldState), ModelErr>(
                            (body2, dirs, stz),
                        ));
                        assert(handle_imports(fs, ctx, cur, lines, ni, one, 0, body, dirs, st)
                            == handle_imports(fs, ctx, cur, lines, ni, one, 1, body2, dirs, stz));
                        assert(handle_imports(fs, ctx, cur, lines, ni, one, 1, body2, dirs, stz)
                            == Ok::<(Seq<char>, Seq<char>, UnfoldState), ModelErr>(
                            (body2, dirs, stz),
                        ));
                    },
                }
            },
        }
    }
}

/// Wildcard subsumption: every wildcard import reaches the output block, and
/// an explicit import covered by a wildcard never stands in it on its own.
pub proof fn lemma_wildcard_subsumption(
    used: Seq<Seq<char>>,
    star: Seq<Seq<char>>,
    q: Seq<char>,
    p: Seq<char>,
)
    requires
        star.contains(q),
        covered(p, star),
        !star.contains(p),
    ensures
        emitted(used, star).contains(q),
        !emitted(used, star).contains(p),
{
    let em = emitted(used, star);
    let kept = used.filter(keeps(star));
    let i = choose|i: int| 0 <= i < star.len() && star[i] == q;
    assert(em[i] == q);
    assert(em.contains(q));
    assert(!em.contains(p)) by {
        if em.contains(p) {
            let j = choose|j: int| 0 <= j < em.len() && em[j] == p;
            if j < star.len() {
                assert(star[j] == p);
            } else {
                assert(kept[j - star.len()] == p);
                assert(keeps(star)(kept[j - star.len()])) by {
                    broadcast use Seq::lemma_filter_pred;

                }
            }
        }
    }
}

// ---------------------------------------------------------------------------
// Module-declaration elision: machinery
// ---------------------------------------------------------------------------

/// Text that spans no line break.
pub open spec fn no_nl(s: Seq<char>) -> bool {
    forall|i: int| 0 <= i < s.len() ==> s[i] != '\n'
}

/// Every piece spans no line break.
pub open spec fn all_no_nl(l: Seq<Seq<char>>) -> bool {
    forall|j: int| 0 <= j < l.len() ==> no_nl(#[trigger] l[j])
}

/// Every expanded import path's segments span no line break.
pub open spec fn paths_no_nl(exps: Seq<Seq<Seq<char>>>) -> bool {
    forall|a: int| 0 <= a < exps.len() ==> all_no_nl(#[trigger] exps[a])
}

/// No line of the text is a module declaration.
pub open spec fn mod_free(s: Seq<char>) -> bool {
    forall|j: int|
        0 <= j < lines_of(s).len() ==> !is_mod_decl(tokens_of(#[trigger] lines_of(s)[j]))
}

/// The text is empty or ends with a newline.
pub open spec fn terminated(s: Seq<char>) -> bool {
    s.len() == 0 || s.last() == '\n'
}

/// Output text that holds no module declaration and composes cleanly.
pub open spec fn good_output(s: Seq<char>) -> bool {
    mod_free(s) && terminated(s)
}

/// A sequence in strictly increasing lexicographic order, hence without
/// duplicates.
pub open spec fn sorted_unique(s: Seq<Seq<char>>) -> bool {
    forall|i: int, j: int| 0 <= i < j < s.len() ==> lex_lt(s[i], s[j])
}

/// A traversal state whose import sets hold single-line paths in strictly
/// sorted order.
pub open spec fn clean_state(st: UnfoldState) -> bool {
    all_no_nl(st.used) && all_no_nl(st.star) && sorted_unique(st.used) && sorted_unique(st.star)
}

/// The lexicographic order is transitive.
pub proof fn lemma_lex_trans(a: Seq<char>, b: Seq<char>, c: Seq<char>)
    requires
        lex_lt(a, b),
        lex_lt(b, c),
    ensures
        lex_lt(a, c),
    decreases a.len(),
{
    if c.len() == 0 {
    } else if b.len() == 0 {
    } else if a.len() == 0 {
    } else {
        if a[0] == b[0] {
            if b[0] == c[0] {
                lemma_lex_trans(a.drop_first(), b.drop_first(), c.drop_first());
            }
        } else {
            if b[0] == c[0] {
            } else {
            }
        }
    }
}

/// A strictly sorted sequence holds no element twice.
pub proof fn lemma_sorted_unique_no_dups(s: Seq<Seq<char>>, i: int, j: int)
    requires
        sorted_unique(s),
        0 <= i < j < s.len(),
    ensures
        s[i] != s[j],
{
    lemma_lex_asym(s[i], s[j]);
}

/// Sorted insertion keeps the sequence strictly sorted and adds exactly the
/// new element.
pub proof fn lemma_sorted_insert_keeps(s: Seq<Seq<char>>, x: Seq<char>)
    requires
        sorted_unique(s),
    ensures
        sorted_unique(sorted_insert(s, x)),
        forall|y: Seq<char>|
            #[trigger] sorted_insert(s, x).contains(y) <==> (s.contains(y) || y == x),
    decreases s.len(),
{
    let r = sorted_insert(s, x);
    if s.len() == 0 {
        assert(r == seq![x]);
        assert forall|y: Seq<char>| #[trigger] r.contains(y) <==> (s.contains(y) || y == x) by {
            assert(r[0] == x);
        }
    } else if x == s[0] {
        assert forall|y: Seq<char>| #[trigger] r.contains(y) <==> (s.contains(y) || y == x) by {
            assert(s[0] == x);
        }
    } else if lex_lt(x, s[0]) {
        assert(r == seq![x] + s);
        assert forall|i: int, j: int| 0 <= i < j < r.len() implies lex_lt(r[i], r[j]) by {
            if i == 0 {
                assert(r[0] == x);
                assert(r[j] == s[j - 1]);
                if j > 1 {
                    lemma_lex_trans(x, s[0], s[j - 1]);
                }
            } else {
                assert(r[i] == s[i - 1]);
                assert(r[j] == s[j - 1]);
            }
        }
        assert forall|y: Seq<char>| #[trigger] r.contains(y) <==> (s.contains(y) || y == x) by {
            if r.contains(y) {
                let k = choose|k: int| 0 <= k < r.len() && r[k] == y;
                if k == 0 {
                } else {
                    assert(s[k - 1] == y);
                }
            }
            if s.contains(y) {
                let k = choose|k: int| 0 <= k < s.len() && s[k] == y;
                assert(r[k + 1] == y);
            }
            if y == x {
                assert(r[0] == y);
            }
        }
    } else {
        let d = s.drop_first();
        assert(sorted_unique(d)) by {
            assert forall|i: int, j: int| 0 <= i < j < d.len() implies lex_lt(d[i], d[j]) by {
                assert(d[i] == s[i + 1]);
                assert(d[j] == s[j + 1]);
            }
        }
        lemma_sorted_insert_keeps(d, x);
        let rest = sorted_insert(d, x);
        assert(r == seq![s[0]] + rest);
        lemma_lex_total(x, s[0]);
        assert(lex_lt(s[0], x));
        assert forall|i: int, j: int| 0 <= i < j < r.len() implies lex_lt(r[i], r[j]) by {
            if i == 0 {
                assert(r[j] == rest[j - 1]);
                assert(rest.contains(rest[j - 1]));
                if rest[j - 1] == x {
                } else {
                    assert(d.contains(rest[j - 1]));
                    let k = choose|k: int| 0 <= k < d.len() && d[k] == rest[j - 1];
                    assert(d[k] == s[k + 1]);
                    assert(lex_lt(s[0], s[k + 1]));
                }
            } else {
                assert(r[i] == rest[i - 1]);
                assert(r[j] == rest[j - 1]);
            }
        }
        assert forall|y: Seq<char>| #[trigger] r.contains(y) <==> (s.contains(y) || y == x) by {
            if r.contains(y) {
                let k = choose|k: int| 0 <= k < r.len() && r[k] == y;
                if k == 0 {
                    assert(s[0] == y);
                } else {
                    assert(rest[k - 1] == y);
                    assert(rest.contains(y));
                    if d.contains(y) {
                        let m = choose|m: int| 0 <= m < d.len() && d[m] == y;
                        assert(s[m + 1] == y);
                    }
                }
            }
            if s.contains(y) {
                let k = choose|k: int| 0 <= k < s.len() && s[k] == y;
                if k == 0 {
                    assert(r[0] == y);
                } else {
                    assert(d[k - 1] == y);
                    assert(d.contains(y));
                    assert(rest.contains(y));
                    let m = choose|m: int| 0 <= m < rest.len() && rest[m] == y;
                    assert(r[m + 1] == y);
                }
            }
            if y == x {
                assert(rest.contains(y));
                let m = choose|m: int| 0 <= m < rest.len() && rest[m] == y;
                assert(r[m + 1] == y);
            }
        }
    }
}

/// Positions after a terminated prefix read from the second text.
pub proof fn lemma_lines_from_shift(a: Seq<char>, b: Seq<char>, j: int, cur: Seq<char>)
    requires
        0 <= j <= b.len(),
    ensures
        lines_from(a + b, a.len() + j, cur) == lines_from(b, j, cur),
    decreases b.len() - j,
{
    let s = a + b;
    if j == b.len() {
    } else {
        assert(s[a.len() + j] == b[j]);
        if b[j] == '\n' {
            lemma_lines_from_shift(a, b, j + 1, seq![]);
        } else {
            lemma_lines_from_shift(a, b, j + 1, cur.push(b[j]));
        }
    }
}

pub proof fn lemma_lines_from_concat(a: Seq<char>, b: Seq<char>, i: int, cur: Seq<char>)
    requires
        a.len() > 0,
        a.last() == '\n',
        0 <= i < a.len(),
    ensures
        lines_from(a + b, i, cur) == lines_from(a, i, cur) + lines_of(b),
    decreases a.len() - i,
{
    let s = a + b;
    assert(s[i] == a[i]);
    if a[i] == '\n' {
        if i + 1 == a.len() {
            lemma_lines_from_shift(a, b, 0, seq![]);
            assert(lines_from(a, i + 1, seq![]) =~= Seq::<Seq<char>>::empty());
            assert(seq![strip_cr(cur)] + lines_of(b) =~= (seq![strip_cr(cur)]
                + Seq::<Seq<char>>::empty()) + lines_of(b));
        } else {
            lemma_lines_from_concat(a, b, i + 1, seq![]);
            assert(seq![strip_cr(cur)] + (lines_from(a, i + 1, seq![]) + lines_of(b)) =~= (
            seq![strip_cr(cur)] + lines_from(a, i + 1, seq![])) + lines_of(b));
        }
    } else {
        assert(i + 1 < a.len()) by {
            if i + 1 == a.len() {
                assert(a[i] == a.last());
            }
        }
        lemma_lines_from_concat(a, b, i + 1, cur.push(a[i]));
    }
}

/// Lines of a concatenation after a terminated prefix are the lines of the
/// parts.
pub proof fn lemma_lines_concat(a: Seq<char>, b: Seq<char>)
    requires
        terminated(a),
    ensures
        lines_of(a + b) == lines_of(a) + lines_of(b),
{
    if a.len() == 0 {
        assert(a + b =~= b);
        assert(lines_of(a) =~= Seq::<Seq<char>>::empty());
        assert(lines_of(a) + lines_of(b) =~= lines_of(b));
    } else {
        lemma_lines_from_concat(a, b, 0, seq![]);
    }
}

/// Module-free text composes under concatenation.
pub proof fn lemma_good_concat(a: Seq<char>, b: Seq<char>)
    requires
        good_output(a),
        good_output(b),
    ensures
        good_output(a + b),
{
    lemma_lines_concat(a, b);
    let ab = a + b;
    assert forall|j: int| 0 <= j < lines_of(ab).len() implies !is_mod_decl(
        tokens_of(lines_of(ab)[j]),
    ) by {
        if j < lines_of(a).len() {
            assert(lines_of(ab)[j] == lines_of(a)[j]);
        } else {
            assert(lines_of(ab)[j] == lines_of(b)[j - lines_of(a).len()]);
        }
    }
    assert(terminated(ab)) by {
        if b.len() == 0 {
            assert(ab =~= a);
        } else {
            assert(ab.last() == b.last());
        }
    }
}

/// Dropping one trailing whitespace character leaves the tokens unchanged.
pub proof fn lemma_tokens_drop_trailing_space(s: Seq<char>, i: int, cur: Seq<char>)
    requires
        s.len() > 0,
        is_space_char(s.last()),
        0 <= i <= s.len() - 1,
    ensures
        tokens_from(s, i, cur) == tokens_from(s.drop_last(), i, cur),
    decreases s.len() - i,
{
    let d = s.drop_last();
    if i == s.len() - 1 {
        assert(tokens_from(s, i + 1, seq![]) =~= Seq::<Seq<char>>::empty());
        if cur.len() == 0 {
            assert(tokens_from(s, i, cur) =~= Seq::<Seq<char>>::empty());
        } else {
            assert(tokens_from(s, i, cur) =~= seq![cur] + Seq::<Seq<char>>::empty());
            assert(seq![cur] + Seq::<Seq<char>>::empty() =~= seq![cur]);
        }
    } else {
        assert(d[i] == s[i]);
        if is_space_char(s[i]) {
            if cur.len() == 0 {
                lemma_tokens_drop_trailing_space(s, i + 1, seq![]);
            } else {
                lemma_tokens_drop_trailing_space(s, i + 1, seq![]);
            }
        } else {
            lemma_tokens_drop_trailing_space(s, i + 1, cur.push(s[i]));
        }
    }
}

/// Stripping a carriage return leaves the tokens unchanged.
pub proof fn lemma_tokens_strip_cr(l: Seq<char>)
    ensures
        tokens_of(strip_cr(l)) == tokens_of(l),
{
    if l.len() > 0 && l.last() == '\r' {
        lemma_tokens_drop_trailing_space(l, 0, seq![]);
    }
}

/// Every line produced by the line splitter spans no line break.
pub proof fn lemma_lines_pieces_no_nl(s: Seq<char>, i: int, cur: Seq<char>)
    requires
        no_nl(cur),
    ensures
        all_no_nl(lines_from(s, i, cur)),
    decreases s.len() - i,
{
    if i < 0 || i >= s.len() {
    } else if s[i] == '\n' {
        lemma_lines_pieces_no_nl(s, i + 1, seq![]);
        let r = seq![strip_cr(cur)] + lines_from(s, i + 1, seq![]);
        assert forall|j: int| 0 <= j < r.len() implies no_nl(#[trigger] r[j]) by {
            if j == 0 {
                assert(no_nl(strip_cr(cur)));
            } else {
                assert(r[j] == lines_from(s, i + 1, seq![])[j - 1]);
            }
        }
    } else {
        lemma_lines_pieces_no_nl(s, i + 1, cur.push(s[i]));
    }
}

/// Every token of a line without line breaks spans no line break.
pub proof fn lemma_tokens_pieces_no_nl(s: Seq<char>, i: int, cur: Seq<char>)
    requires
        no_nl(s),
        no_nl(cur),
    ensures
        all_no_nl(tokens_from(s, i, cur)),
    decreases s.len() - i,
{
    if i < 0 || i >= s.len() {
    } else if is_space_char(s[i]) {
        lemma_tokens_pieces_no_nl(s, i + 1, seq![]);
        if cur.len() > 0 {
            let r = seq![cur] + tokens_from(s, i + 1, seq![]);
            assert forall|j: int| 0 <= j < r.len() implies no_nl(#[trigger] r[j]) by {
                if j > 0 {
                    assert(r[j] == tokens_from(s, i + 1, seq![])[j - 1]);
                }
            }
        }
    } else {
        lemma_tokens_pieces_no_nl(s, i + 1, cur.push(s[i]));
    }
}

/// Concatenating pieces without line breaks yields text without them.
pub proof fn lemma_concat_no_nl(ts: Seq<Seq<char>>, i: int)
    requires
        all_no_nl(ts),
    ensures
        no_nl(concat_from(ts, i)),
    decreases ts.len() - i,
{
    if i < 0 || i >= ts.len() {
    } else {
        lemma_concat_no_nl(ts, i + 1);
    }
}

/// A found terminator stands inside the scanned text.
pub proof fn lemma_scan_term_bounds(s: Seq<char>, i: int, depth: int)
    requires
        scan_stmt_from(s, i, depth) is Term,
    ensures
        0 <= scan_stmt_from(s, i, depth)->Term_0 < s.len(),
        scan_stmt_from(s, i, depth)->Term_0 >= i,
    decreases s.len() - i,
{
    if depth < 0 {
    } else if i < 0 || i >= s.len() {
    } else if s[i] == ';' && depth == 0 {
    } else if s[i] == '{' {
        lemma_scan_term_bounds(s, i + 1, depth + 1);
    } else if s[i] == '}' {
        lemma_scan_term_bounds(s, i + 1, depth - 1);
    } else {
        lemma_scan_term_bounds(s, i + 1, depth);
    }
}

/// A gathered statement spans no line break.
pub proof fn lemma_gather_no_nl(lines: Seq<Seq<char>>, i: int, acc: Seq<char>)
    requires
        all_no_nl(lines),
        no_nl(acc),
        gather_stmt(lines, i, acc) is Some,
    ensures
        no_nl(gather_stmt(lines, i, acc)->Some_0.0),
    decreases lines.len() - i,
{
    match scan_stmt(acc) {
        Scan::Term(j) => {
            lemma_scan_term_bounds(acc, 0, 0);
            assert(no_nl(acc.take(j)));
        },
        Scan::Neg => {
        },
        Scan::Open => {
            if 0 <= i < lines.len() {
                lemma_tokens_pieces_no_nl(lines[i], 0, seq![]);
                lemma_concat_no_nl(tokens_of(lines[i]), 0);
                lemma_gather_no_nl(lines, i + 1, acc + concat_from(tokens_of(lines[i]), 0));
            }
        },
    }
}

/// The tokenizer's pieces span no line break when the input does not.
pub proof fn lemma_split_cc_no_nl(s: Seq<char>, i: int, depth: int, cur: Seq<char>)
    requires
        no_nl(s),
        no_nl(cur),
        split_cc_from(s, i, depth, cur) is Some,
    ensures
        all_no_nl(split_cc_from(s, i, depth, cur)->Some_0),
    decreases s.len() - i,
{
    if depth < 0 {
    } else if i < 0 || i >= s.len() {
        let r = split_cc_from(s, i, depth, cur)->Some_0;
        assert(r == seq![cur]);
    } else if s[i] == '{' {
        lemma_split_cc_no_nl(s, i + 1, depth + 1, cur.push('{'));
    } else if s[i] == '}' {
        lemma_split_cc_no_nl(s, i + 1, depth - 1, cur.push('}'));
    } else if s[i] == ':' && depth == 0 && i + 1 < s.len() && s[i + 1] == ':' {
        lemma_split_cc_no_nl(s, i + 2, 0, seq![]);
        let rest = split_cc_from(s, i + 2, 0, seq![])->Some_0;
        let r = seq![cur] + rest;
        assert forall|j: int| 0 <= j < r.len() implies no_nl(#[trigger] r[j]) by {
            if j > 0 {
                assert(r[j] == rest[j - 1]);
            }
        }
    } else {
        lemma_split_cc_no_nl(s, i + 1, depth, cur.push(s[i]));
    }
}

/// The comma splitter's pieces span no line break when the input does not.
pub proof fn lemma_split_commas_no_nl(s: Seq<char>, i: int, depth: int, cur: Seq<char>)
    requires
        no_nl(s),
        no_nl(cur),
        split_commas_from(s, i, depth, cur) is Some,
    ensures
        all_no_nl(split_commas_from(s, i, depth, cur)->Some_0),
    decreases s.len() - i,
{
    if depth < 0 {
    } else if i < 0 || i >= s.len() {
        let r = split_commas_from(s, i, depth, cur)->Some_0;
        assert(r == seq![cur]);
    } else if s[i] == '{' {
        lemma_split_commas_no_nl(s, i + 1, depth + 1, cur.push('{'));
    } else if s[i] == '}' {
        lemma_split_commas_no_nl(s, i + 1, depth - 1, cur.push('}'));
    } else if s[i] == ',' && depth == 0 {
        lemma_split_commas_no_nl(s, i + 1, 0, seq![]);
        let rest = split_commas_from(s, i + 1, 0, seq![])->Some_0;
        let r = seq![cur] + rest;
        assert forall|j: int| 0 <= j < r.len() implies no_nl(#[trigger] r[j]) by {
            if j > 0 {
                assert(r[j] == rest[j - 1]);
            }
        }
    } else {
        lemma_split_commas_no_nl(s, i + 1, depth, cur.push(s[i]));
    }
}

/// Every expanded path's segments span no line break when the tokens do not.
pub proof fn lemma_expand_no_nl(ts: Seq<Seq<char>>, i: int, prefix: Seq<Seq<char>>)
    requires
        all_no_nl(ts),
        all_no_nl(prefix),
        expand_from(ts, i, prefix) is Some,
    ensures
        paths_no_nl(expand_from(ts, i, prefix)->Some_0),
    decreases toks_chars(ts.skip(i)), ts.len() - i,
{
    if i < 0 {
    } else if i >= ts.len() {
        let r = expand_from(ts, i, prefix)->Some_0;
        assert(r == seq![prefix]);
    } else {
        let t = ts[i];
        if t.len() == 0 {
        } else if t[0] == '{' {
            if i != ts.len() - 1 || t.len() < 2 || t.last() != '}' {
            } else {
                let inner = t.subrange(1, t.len() - 1);
                assert(no_nl(inner));
                match split_commas(inner) {
                    Some(children) => {
                        lemma_split_commas_no_nl(inner, 0, 0, seq![]);
                        lemma_split_commas_chars(inner, 0, 0, seq![]);
                        lemma_skip_last_tok(ts, i);
                        assert(children.skip(0) =~= children);
                        lemma_expand_children_no_nl(children, 0, prefix);
                    },
                    None => {
                    },
                }
            }
        } else {
            lemma_skip_step_tok(ts, i);
            let p2 = prefix.push(t);
            assert(all_no_nl(p2)) by {
                assert forall|j: int| 0 <= j < p2.len() implies no_nl(#[trigger] p2[j]) by {
                    if j < prefix.len() {
                        assert(p2[j] == prefix[j]);
                    } else {
                        assert(p2[j] == t);
                    }
                }
            }
            lemma_expand_no_nl(ts, i + 1, p2);
        }
    }
}

pub proof fn lemma_expand_children_no_nl(children: Seq<Seq<char>>, k: int, prefix: Seq<Seq<char>>)
    requires
        all_no_nl(children),
        all_no_nl(prefix),
        expand_children(children, k, prefix) is Some,
    ensures
        paths_no_nl(expand_children(children, k, prefix)->Some_0),
    decreases pieces_chars(children.skip(k)), children.len() - k,
{
    if k < 0 || k >= children.len() {
    } else {
        match split_cc(children[k]) {
            None => {
            },
            Some(ctoks) => {
                lemma_split_cc_no_nl(children[k], 0, 0, seq![]);
                lemma_split_cc_chars(children[k], 0, 0, seq![]);
                lemma_ctoks_skip_zero(ctoks);
                lemma_pieces_skip_step(children, k);
                match expand_from(ctoks, 0, prefix) {
                    None => {
                    },
                    Some(exps) => {
                        lemma_expand_no_nl(ctoks, 0, prefix);
                        match expand_children(children, k + 1, prefix) {
                            None => {
                            },
                            Some(rest) => {
                                lemma_expand_children_no_nl(children, k + 1, prefix);
                                let r = exps + rest;
                                assert forall|a: int| 0 <= a < r.len() implies all_no_nl(
                                    #[trigger] r[a],
                                ) by {
                                    if a < exps.len() {
                                        assert(r[a] == exps[a]);
                                    } else {
                                        assert(r[a] == rest[a - exps.len()]);
                                    }
                                }
                            },
                        }
                    },
                }
            },
        }
    }
}

/// A joined path spans no line break when its segments do not.
pub proof fn lemma_join_no_nl(segs: Seq<Seq<char>>, i: int)
    requires
        all_no_nl(segs),
    ensures
        no_nl(join_cc_from(segs, i)),
    decreases segs.len() - i,
{
    if i < 0 || i >= segs.len() {
    } else if i == segs.len() - 1 {
    } else {
        lemma_join_no_nl(segs, i + 1);
        assert(no_nl("::"@)) by {
            reveal_strlit("::");
        }
    }
}

/// Sorted insertion keeps every entry free of line breaks.
pub proof fn lemma_sorted_insert_no_nl(s: Seq<Seq<char>>, x: Seq<char>)
    requires
        all_no_nl(s),
        no_nl(x),
    ensures
        all_no_nl(sorted_insert(s, x)),
    decreases s.len(),
{
    if s.len() == 0 {
        let r = seq![x];
        assert(all_no_nl(r));
    } else if x == s[0] {
    } else if lex_lt(x, s[0]) {
        let r = seq![x] + s;
        assert forall|j: int| 0 <= j < r.len() implies no_nl(#[trigger] r[j]) by {
            if j > 0 {
                assert(r[j] == s[j - 1]);
            }
        }
    } else {
        assert(all_no_nl(s.drop_first()));
        lemma_sorted_insert_no_nl(s.drop_first(), x);
        let rest = sorted_insert(s.drop_first(), x);
        let r = seq![s[0]] + rest;
        assert forall|j: int| 0 <= j < r.len() implies no_nl(#[trigger] r[j]) by {
            if j > 0 {
                assert(r[j] == rest[j - 1]);
            }
        }
    }
}

/// The empty text holds no module declaration.
pub proof fn lemma_empty_good()
    ensures
        good_output(Seq::<char>::empty()),
{
    assert(lines_of(Seq::<char>::empty()) =~= Seq::<Seq<char>>::empty());
}

pub proof fn lemma_lines_push_nl(t: Seq<char>, i: int, cur: Seq<char>)
    requires
        no_nl(t),
        0 <= i <= t.len(),
    ensures
        lines_from(t.push('\n'), i, cur) == seq![strip_cr(cur + t.skip(i))],
    decreases t.len() - i,
{
    let s = t.push('\n');
    if i == t.len() {
        assert(s[i] == '\n');
        assert(lines_from(s, i + 1, seq![]) =~= Seq::<Seq<char>>::empty());
        assert(cur + t.skip(i) =~= cur);
        assert(seq![strip_cr(cur)] + Seq::<Seq<char>>::empty() =~= seq![strip_cr(cur)]);
    } else {
        assert(s[i] == t[i]);
        lemma_lines_push_nl(t, i + 1, cur.push(t[i]));
        assert(cur.push(t[i]) + t.skip(i + 1) =~= cur + t.skip(i));
    }
}

/// A line without line breaks or a module declaration, emitted with its
/// newline, yields module-free terminated text.
pub proof fn lemma_line_emission(l: Seq<char>)
    requires
        no_nl(l),
        !is_mod_decl(tokens_of(l)),
    ensures
        good_output(l + "\n"@),
{
    assert(l + "\n"@ =~= l.push('\n')) by {
        reveal_strlit("\n");
    }
    lemma_lines_push_nl(l, 0, seq![]);
    assert(seq![] + l.skip(0) =~= l);
    assert(lines_of(l + "\n"@) == seq![strip_cr(l)]);
    lemma_tokens_strip_cr(l);
    assert((l + "\n"@).last() == '\n') by {
        reveal_strlit("\n");
    }
}

/// A rendered import line holds no module declaration.
pub proof fn lemma_use_line_good(p: Seq<char>)
    requires
        no_nl(p),
    ensures
        good_output(use_line(p)),
{
    let t = "use "@ + p + ";"@;
    assert(use_line(p) =~= t + "\n"@) by {
        reveal_strlit("use ");
        reveal_strlit(";");
        reveal_strlit(";\n");
        reveal_strlit("\n");
    }
    assert(no_nl(t)) by {
        reveal_strlit("use ");
        reveal_strlit(";");
        assert forall|i: int| 0 <= i < t.len() implies t[i] != '\n' by {
            if i < 4 {
                assert(t[i] == "use "@[i]);
            } else if i < 4 + p.len() {
                assert(t[i] == p[i - 4]);
            } else {
                assert(t[i] == ";"@[i - 4 - p.len()]);
            }
        }
    }
    assert(!is_mod_decl(tokens_of(t))) by {
        reveal_strlit("use ");
        assert(t[0] == 'u' && t[1] == 's' && t[2] == 'e' && t[3] == ' ');
        let c0: Seq<char> = seq![];
        assert(tokens_from(t, 0, c0) == tokens_from(t, 1, c0.push('u')));
        assert(tokens_from(t, 1, c0.push('u')) == tokens_from(t, 2, c0.push('u').push('s')));
        assert(tokens_from(t, 2, c0.push('u').push('s')) == tokens_from(
            t,
            3,
            c0.push('u').push('s').push('e'),
        ));
        let u = c0.push('u').push('s').push('e');
        assert(u.len() == 3);
        assert(tokens_from(t, 3, u) == seq![u] + tokens_from(t, 4, seq![]));
        assert(tokens_of(t)[0] == u);
        assert(u == "use"@) by {
            reveal_strlit("use");
            assert(u =~= "use"@);
        }
        assert(u != "mod"@) by {
            reveal_strlit("mod");
            reveal_strlit("use");
            assert("use"@[0] == 'u' && "mod"@[0] == 'm');
        }
        assert(u != "pub"@) by {
            reveal_strlit("pub");
            reveal_strlit("use");
            assert("use"@[0] == 'u' && "pub"@[0] == 'p');
        }
    }
    lemma_line_emission(t);
}

/// A rendered import block holds no module declaration.
pub proof fn lemma_render_good(l: Seq<Seq<char>>, i: int)
    requires
        all_no_nl(l),
    ensures
        good_output(render_list(l, i)),
    decreases l.len() - i,
{
    if i < 0 || i >= l.len() {
        lemma_empty_good();
    } else {
        lemma_use_line_good(l[i]);
        lemma_render_good(l, i + 1);
        lemma_good_concat(use_line(l[i]), render_list(l, i + 1));
    }
}

/// Every element a filter keeps stands in the sequence it was filtered from.
pub proof fn lemma_filter_elem<A>(s: Seq<A>, pred: spec_fn(A) -> bool, i: int)
    requires
        0 <= i < s.filter(pred).len(),
    ensures
        s.contains(s.filter(pred)[i]),
    decreases s.len(),
{
    reveal(Seq::filter);
    if s.len() == 0 {
    } else {
        let d = s.drop_last();
        if pred(s.last()) {
            if i < d.filter(pred).len() {
                lemma_filter_elem(d, pred, i);
                let j = choose|j: int| 0 <= j < d.len() && d[j] == d.filter(pred)[i];
                assert(s[j] == s.filter(pred)[i]);
            } else {
                assert(s.filter(pred)[i] == s.last());
                assert(s[s.len() - 1] == s.last());
            }
        } else {
            lemma_filter_elem(d, pred, i);
            let j = choose|j: int| 0 <= j < d.len() && d[j] == d.filter(pred)[i];
            assert(s[j] == s.filter(pred)[i]);
        }
    }
}

/// The emitted import paths span no line break when the sets' entries do
/// not.
pub proof fn lemma_emitted_no_nl(used: Seq<Seq<char>>, star: Seq<Seq<char>>)
    requires
        all_no_nl(used),
        all_no_nl(star),
    ensures
        all_no_nl(emitted(used, star)),
{
    let em = emitted(used, star);
    let kept = used.filter(keeps(star));
    assert forall|j: int| 0 <= j < em.len() implies no_nl(#[trigger] em[j]) by {
        if j < star.len() {
            assert(em[j] == star[j]);
        } else {
            assert(em[j] == kept[j - star.len()]);
            lemma_filter_elem(used, keeps(star), j - star.len());
            let m = choose|m: int| 0 <= m < used.len() && used[m] == kept[j - star.len()];
            assert(no_nl(used[m]));
        }
    }
}

/// The inlined body and the directive block of a run hold no module
/// declaration, end with a newline, and keep the import sets free of line
/// breaks.
pub proof fn lemma_run_good(
    fs: Seq<(Seq<Seq<char>>, Seq<char>)>,
    ctx: Ctx,
    cur: Seq<Seq<char>>,
    lines: Seq<Seq<char>>,
    i: int,
    body: Seq<char>,
    dirs: Seq<char>,
    st: UnfoldState,
)
    requires
        all_no_nl(lines),
        good_output(body),
        good_output(dirs),
        clean_state(st),
    ensures
        match run_lines(fs, ctx, cur, lines, i, body, dirs, st) {
            Ok((b2, d2, st2)) => good_output(b2) && good_output(d2) && clean_state(st2),
            Err(_) => true,
        },
    decreases rem_count(fs, st.visited), lines.len() - i, 0nat,
{
    if i < 0 || i >= lines.len() {
    } else {
        let toks = tokens_of(lines[i]);
        if toks.len() == 0 {
            lemma_empty_good();
            lemma_line_emission(Seq::empty());
            assert(Seq::<char>::empty() + "\n"@ =~= "\n"@);
            lemma_good_concat(body, "\n"@);
            lemma_run_good(fs, ctx, cur, lines, i + 1, body + "\n"@, dirs, st);
        } else if is_mod_decl(toks) {
            lemma_run_good(fs, ctx, cur, lines, i + 1, body, dirs, st);
        } else if is_directive(toks) {
            assert(!is_mod_decl(toks)) by {
                reveal_strlit("mod");
                reveal_strlit("pub");
                assert("mod"@[0] == 'm');
                assert("pub"@[0] == 'p');
            }
            lemma_line_emission(lines[i]);
            lemma_good_concat(dirs, lines[i] + "\n"@);
            assert(dirs + lines[i] + "\n"@ =~= dirs + (lines[i] + "\n"@));
            lemma_run_good(fs, ctx, cur, lines, i + 1, body, dirs + lines[i] + "\n"@, st);
        } else {
            match use_offset(toks) {
                None => {
                    lemma_line_emission(lines[i]);
                    lemma_good_concat(body, lines[i] + "\n"@);
                    assert(body + lines[i] + "\n"@ =~= body + (lines[i] + "\n"@));
                    lemma_run_good(fs, ctx, cur, lines, i + 1, body + lines[i] + "\n"@, dirs, st);
                },
                Some(ofs) => {
                    let acc0 = concat_from(toks, ofs + 1);
                    lemma_tokens_pieces_no_nl(lines[i], 0, seq![]);
                    lemma_concat_no_nl(toks, ofs + 1);
                    match gather_stmt(lines, i + 1, acc0) {
                        None => {
                        },
                        Some((stmt, ni)) => {
                            match split_cc(stmt) {
                                None => {
                                },
                                Some(ts) => {
                                    match expand_toks(ts) {
                                        None => {
                                        },
                                        Some(exps) => {
                                            lemma_gather_bounds(lines, i + 1, acc0);
                                            lemma_gather_no_nl(lines, i + 1, acc0);
                                            lemma_split_cc_no_nl(stmt, 0, 0, seq![]);
                                            assert(all_no_nl(Seq::<Seq<char>>::empty()));
                                            lemma_expand_no_nl(ts, 0, Seq::empty());
                                            lemma_handle_good(
                                                fs,
                                                ctx,
                                                cur,
                                                lines,
                                                ni,
                                                exps,
                                                0,
                                                body,
                                                dirs,
                                                st,
                                            );
                                            match handle_imports(
                                                fs,
                                                ctx,
                                                cur,
                                                lines,
                                                ni,
                                                exps,
                                                0,
                                                body,
                                                dirs,
                                                st,
                                            ) {
                                                Err(_) => {
                                                },
                                                Ok((b2, d2, st2)) => {
                                                    let stz = UnfoldState {
                                                        visited: st.visited.union(st2.visited),
                                                        used: st2.used,
                                                        star: st2.star,
                                                    };
                                                    lemma_rem_count_mono(
                                                        fs,
                                                        st.visited,
                                                        stz.visited,
                                                    );
                                                    lemma_run_good(
                                                        fs,
                                                        ctx,
                                                        cur,
                                                        lines,
                                                        ni,
                                                        b2,
                                                        d2,
                                                        stz,
                                                    );
                                                },
                                            }
                                        },
                                    }
                                },
                            }
                        },
                    }
                },
            }
        }
    }
}

/// Handling the import paths of one statement keeps the body, the directive
/// block and the import sets good.
pub proof fn lemma_handle_good(
    fs: Seq<(Seq<Seq<char>>, Seq<char>)>,
    ctx: Ctx,
    cur: Seq<Seq<char>>,
    lines: Seq<Seq<char>>,
    ni: int,
    exps: Seq<Seq<Seq<char>>>,
    k: int,
    body: Seq<char>,
    dirs: Seq<char>,
    st: UnfoldState,
)
    requires
        good_output(body),
        good_output(dirs),
        clean_state(st),
        paths_no_nl(exps),
    ensures
        match handle_imports(fs, ctx, cur, lines, ni, exps, k, body, dirs, st) {
            Ok((b2, d2, st2)) => good_output(b2) && good_output(d2) && clean_state(st2),
            Err(_) => true,
        },
    decreases rem_count(fs, st.visited), lines.len() - ni, exps.len() - k,
{
    if k < 0 || k >= exps.len() {
    } else {
        match resolve(ctx, dir_of(cur), exps[k]) {
            Resolution::Invalid => {
            },
            Resolution::External { path, star } => {
                lemma_join_no_nl(exps[k], 0);
                let st2 = if star {
                    UnfoldState {
                        visited: st.visited,
                        used: st.used,
                        star: sorted_insert(st.star, path),
                    }
                } else {
                    UnfoldState {
                        visited: st.visited,
                        used: sorted_insert(st.used, path),
                        star: st.star,
                    }
                };
                if star {
                    lemma_sorted_insert_no_nl(st.star, path);
                    lemma_sorted_insert_keeps(st.star, path);
                } else {
                    lemma_sorted_insert_no_nl(st.used, path);
                    lemma_sorted_insert_keeps(st.used, path);
                }
                lemma_handle_good(fs, ctx, cur, lines, ni, exps, k + 1, body, dirs, st2);
            },
            Resolution::Internal { file } => {
                if st.visited.contains(file) {
                    lemma_handle_good(fs, ctx, cur, lines, ni, exps, k + 1, body, dirs, st);
                } else {
                    let st_ins = UnfoldState {
                        visited: st.visited.insert(file),
                        used: st.used,
                        star: st.star,
                    };
                    match fs_lookup(fs, file) {
                        None => {
                        },
                        Some(content) => {
                            lemma_fs_keys_finite(fs);
                            lemma_fs_lookup_in_keys(fs, file);
                            fs_keys(fs).lemma_set_insert_diff_decreases(st.visited, file);
                            lemma_lines_pieces_no_nl(content, 0, seq![]);
                            lemma_empty_good();
                            lemma_run_good(
                                fs,
                                ctx,
                                file,
                                lines_of(content),
                                0,
                                Seq::empty(),
                                Seq::empty(),
                                st_ins,
                            );
                            match run_lines(
                                fs,
                                ctx,
                                file,
                                lines_of(content),
                                0,
                                Seq::empty(),
                                Seq::empty(),
                                st_ins,
                            ) {
                                Err(_) => {
                                },
                                Ok((cb, cd, stc)) => {
                                    let stz = UnfoldState {
                                        visited: st_ins.visited.union(stc.visited),
                                        used: stc.used,
                                        star: stc.star,
                                    };
                                    lemma_good_concat(body, cb);
                                    lemma_empty_good();
                                    lemma_line_emission(Seq::empty());
                                    assert(Seq::<char>::empty() + "\n"@ =~= "\n"@);
                                    lemma_good_concat(body + cb, "\n"@);
                                    lemma_rem_count_mono(fs, st.visited, stz.visited);
                                    lemma_handle_good(
                                        fs,
                                        ctx,
                                        cur,
                                        lines,
                                        ni,
                                        exps,
                                        k + 1,
                                        body + cb + "\n"@,
                                        dirs,
                                        stz,
                                    );
                                },
                            }
                        },
                    }
                }
            },
        }
    }
}

/// Module-declaration elision: no `mod X;` or `pub mod X;` line, in any
/// position of any inlined file, ever appears in a successful run's output,
/// provided the walk starts from import sets whose entries span no line
/// break.
pub proof fn lemma_module_elision(
    fs: Seq<(Seq<Seq<char>>, Seq<char>)>,
    ctx: Ctx,
    entry: Seq<Seq<char>>,
    st: UnfoldState,
)
    requires
        clean_state(st),
        spec_unfold(fs, ctx, entry, st) is Ok,
    ensures
        mod_free(spec_unfold(fs, ctx, entry, st)->Ok_0),
{
    match fs_lookup(fs, entry) {
        None => {
        },
        Some(content) => {
            lemma_lines_pieces_no_nl(content, 0, seq![]);
            lemma_empty_good();
            lemma_run_good(
                fs,
                ctx,
                entry,
                lines_of(content),
                0,
                Seq::empty(),
                Seq::empty(),
                st,
            );
            match run_lines(fs, ctx, entry, lines_of(content), 0, Seq::empty(), Seq::empty(), st) {
                Err(_) => {
                },
                Ok((body, dirs, st2)) => {
                    lemma_emitted_no_nl(st2.used, st2.star);
                    lemma_render_good(emitted(st2.used, st2.star), 0);
                    lemma_good_concat(dirs, render_uses(st2.used, st2.star));
                    lemma_good_concat(dirs + render_uses(st2.used, st2.star), body);
                    assert(spec_unfold(fs, ctx, entry, st)->Ok_0 =~= (dirs + render_uses(
                        st2.used,
                        st2.star,
                    )) + body);
                },
            }
        },
    }
}

/// Module-declaration elision for a fresh session, whose import sets start
/// empty.
pub proof fn lemma_module_elision_from_start(
    fs: Seq<(Seq<Seq<char>>, Seq<char>)>,
    ctx: Ctx,
    entry: Seq<Seq<char>>,
)
    requires
        spec_unfold(fs, ctx, entry, initial_state()) is Ok,
    ensures
        mod_free(spec_unfold(fs, ctx, entry, initial_state())->Ok_0),
{
    lemma_module_elision(fs, ctx, entry, initial_state());
}

/// Alias and `crate` forms of an internal import are equivalent: with the
/// session's alias as first segment, or `crate` and then the alias, an
/// import path resolves to the same module file.
pub proof fn lemma_alias_crate_equivalence(ctx: Ctx, cur_dir: Seq<Seq<char>>, rest: Seq<Seq<char>>)
    requires
        ctx.alias != "super"@,
        ctx.alias != "crate"@,
    ensures
        resolve(ctx, cur_dir, seq!["crate"@, ctx.alias] + rest) == resolve(
            ctx,
            cur_dir,
            seq![ctx.alias] + rest,
        ),
{
    let a = seq!["crate"@, ctx.alias] + rest;
    let b = seq![ctx.alias] + rest;
    assert(a[0] == "crate"@);
    assert(a[1] == ctx.alias);
    assert(b[0] == ctx.alias);
    assert("crate"@ != "super"@) by {
        reveal_strlit("crate");
        reveal_strlit("super");
        assert("crate"@[0] == 'c');
        assert("super"@[0] == 's');
    }
    assert(a[0] != ctx.alias);
    assert(item_dropped(a, 2) =~= item_dropped(b, 1));
}

} // verus!
