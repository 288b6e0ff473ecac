//! The mathematical model of the unfolding pipeline: splitting source text
//! into lines and whitespace tokens, tokenizing import paths at top-level
//! `::` separators, expanding brace groups, resolving import paths to module
//! files, and walking the file table while inlining each module at most once.
use vstd::prelude::*;

verus! {

// ---------------------------------------------------------------------------
// Characters, lines and whitespace tokens
// ---------------------------------------------------------------------------

/// Whitespace that separates tokens within a line.
pub open spec fn is_space_char(c: char) -> bool {
    c == ' ' || c == '\t' || c == '\r'
}

/// A line terminated by a newline drops one trailing carriage return.
pub open spec fn strip_cr(l: Seq<char>) -> Seq<char> {
    if l.len() > 0 && l.last() == '\r' {
        l.drop_last()
    } else {
        l
    }
}

/// Splits text into lines at `'\n'`; a final piece after the last newline is
/// kept only when it is nonempty, and each newline-terminated line drops one
/// trailing `'\r'`.
pub open spec fn lines_from(s: Seq<char>, i: int, cur: Seq<char>) -> Seq<Seq<char>>
    decreases s.len() - i,
{
    if i < 0 || i >= s.len() {
        if cur.len() == 0 {
            seq![]
        } else {
            seq![cur]
        }
    } else if s[i] == '\n' {
        seq![strip_cr(cur)] + lines_from(s, i + 1, seq![])
    } else {
        lines_from(s, i + 1, cur.push(s[i]))
    }
}

pub open spec fn lines_of(s: Seq<char>) -> Seq<Seq<char>> {
    lines_from(s, 0, seq![])
}

/// Splits a line into maximal runs of non-whitespace characters.
pub open spec fn tokens_from(s: Seq<char>, i: int, cur: Seq<char>) -> Seq<Seq<char>>
    decreases s.len() - i,
{
    if i < 0 || i >= s.len() {
        if cur.len() == 0 {
            seq![]
        } else {
            seq![cur]
        }
    } else if is_space_char(s[i]) {
        if cur.len() == 0 {
            tokens_from(s, i + 1, seq![])
        } else {
            seq![cur] + tokens_from(s, i + 1, seq![])
        }
    } else {
        tokens_from(s, i + 1, cur.push(s[i]))
    }
}

pub open spec fn tokens_of(s: Seq<char>) -> Seq<Seq<char>> {
    tokens_from(s, 0, seq![])
}

/// Concatenation of the pieces `ts[i..]`, without separators.
pub open spec fn concat_from(ts: Seq<Seq<char>>, i: int) -> Seq<char>
    decreases ts.len() - i,
{
    if i < 0 || i >= ts.len() {
        seq![]
    } else {
        ts[i] + concat_from(ts, i + 1)
    }
}

/// The pieces `segs[i..]` joined with `::`.
pub open spec fn join_cc_from(segs: Seq<Seq<char>>, i: int) -> Seq<char>
    decreases segs.len() - i,
{
    if i < 0 || i >= segs.len() {
        seq![]
    } else if i == segs.len() - 1 {
        segs[i]
    } else {
        segs[i] + "::"@ + join_cc_from(segs, i + 1)
    }
}

pub open spec fn join_cc(segs: Seq<Seq<char>>) -> Seq<char> {
    join_cc_from(segs, 0)
}

// ---------------------------------------------------------------------------
// Tokenizing an import path at top-level `::`
// ---------------------------------------------------------------------------

/// Splits an import path at `::` separators that stand outside every brace
/// group. `None` means the braces are unbalanced.
pub open spec fn split_cc_from(s: Seq<char>, i: int, depth: int, cur: Seq<char>) -> Option<
    Seq<Seq<char>>,
>
    decreases s.len() - i,
{
    if depth < 0 {
        None
    } else if i < 0 || i >= s.len() {
        if depth == 0 {
            Some(seq![cur])
        } else {
            None
        }
    } else if s[i] == '{' {
        split_cc_from(s, i + 1, depth + 1, cur.push('{'))
    } else if s[i] == '}' {
        split_cc_from(s, i + 1, depth - 1, cur.push('}'))
    } else if s[i] == ':' && depth == 0 && i + 1 < s.len() && s[i + 1] == ':' {
        match split_cc_from(s, i + 2, 0, seq![]) {
            Some(rest) => Some(seq![cur] + rest),
            None => None,
        }
    } else {
        split_cc_from(s, i + 1, depth, cur.push(s[i]))
    }
}

pub open spec fn split_cc(s: Seq<char>) -> Option<Seq<Seq<char>>> {
    split_cc_from(s, 0, 0, seq![])
}

/// Splits the interior of a brace group at commas that stand outside every
/// nested brace group. `None` means the braces are unbalanced.
pub open spec fn split_commas_from(s: Seq<char>, i: int, depth: int, cur: Seq<char>) -> Option<
    Seq<Seq<char>>,
>
    decreases s.len() - i,
{
    if depth < 0 {
        None
    } else if i < 0 || i >= s.len() {
        if depth == 0 {
            Some(seq![cur])
        } else {
            None
        }
    } else if s[i] == '{' {
        split_commas_from(s, i + 1, depth + 1, cur.push('{'))
    } else if s[i] == '}' {
        split_commas_from(s, i + 1, depth - 1, cur.push('}'))
    } else if s[i] == ',' && depth == 0 {
        match split_commas_from(s, i + 1, 0, seq![]) {
            Some(rest) => Some(seq![cur] + rest),
            None => None,
        }
    } else {
        split_commas_from(s, i + 1, depth, cur.push(s[i]))
    }
}

pub open spec fn split_commas(s: Seq<char>) -> Option<Seq<Seq<char>>> {
    split_commas_from(s, 0, 0, seq![])
}

// ---------------------------------------------------------------------------
// Size bounds on the split results, for termination of the expander
// ---------------------------------------------------------------------------

/// Total number of characters in a token list.
pub open spec fn toks_chars(ts: Seq<Seq<char>>) -> nat
    decreases ts.len(),
{
    if ts.len() == 0 {
        0
    } else {
        ts[0].len() + toks_chars(ts.drop_first())
    }
}

/// Total number of characters in a piece list, plus one per piece.
pub open spec fn pieces_chars(ts: Seq<Seq<char>>) -> nat
    decreases ts.len(),
{
    if ts.len() == 0 {
        0
    } else {
        ts[0].len() + 1 + pieces_chars(ts.drop_first())
    }
}

pub proof fn lemma_toks_chars_cons(head: Seq<char>, rest: Seq<Seq<char>>)
    ensures
        toks_chars(seq![head] + rest) == head.len() + toks_chars(rest),
{
    let whole = seq![head] + rest;
    assert(whole.drop_first() =~= rest);
    assert(whole[0] == head);
}

pub proof fn lemma_pieces_chars_cons(head: Seq<char>, rest: Seq<Seq<char>>)
    ensures
        pieces_chars(seq![head] + rest) == head.len() + 1 + pieces_chars(rest),
{
    let whole = seq![head] + rest;
    assert(whole.drop_first() =~= rest);
    assert(whole[0] == head);
}

/// A successful `::` split yields tokens whose total size is bounded by the
/// unread input plus the accumulator.
pub proof fn lemma_split_cc_chars(s: Seq<char>, i: int, depth: int, cur: Seq<char>)
    requires
        split_cc_from(s, i, depth, cur) is Some,
    ensures
        toks_chars(split_cc_from(s, i, depth, cur)->Some_0) <= cur.len() + if i < 0 {
            s.len() as int
        } else if i >= s.len() {
            0
        } else {
            s.len() - i
        },
    decreases s.len() - i,
{
    if depth < 0 {
    } else if i < 0 || i >= s.len() {
        let r = split_cc_from(s, i, depth, cur)->Some_0;
        assert(r == seq![cur]);
        lemma_toks_chars_cons(cur, seq![]);
        assert(r =~= seq![cur] + Seq::<Seq<char>>::empty());
    } else if s[i] == '{' {
        lemma_split_cc_chars(s, i + 1, depth + 1, cur.push('{'));
    } else if s[i] == '}' {
        lemma_split_cc_chars(s, i + 1, depth - 1, cur.push('}'));
    } else if s[i] == ':' && depth == 0 && i + 1 < s.len() && s[i + 1] == ':' {
        lemma_split_cc_chars(s, i + 2, 0, seq![]);
        let rest = split_cc_from(s, i + 2, 0, seq![])->Some_0;
        lemma_toks_chars_cons(cur, rest);
    } else {
        lemma_split_cc_chars(s, i + 1, depth, cur.push(s[i]));
    }
}

/// A successful comma split yields pieces whose total size (counting one
/// separator per piece) is bounded by the unread input plus one, plus the
/// accumulator.
pub proof fn lemma_split_commas_chars(s: Seq<char>, i: int, depth: int, cur: Seq<char>)
    requires
        split_commas_from(s, i, depth, cur) is Some,
    ensures
        pieces_chars(split_commas_from(s, i, depth, cur)->Some_0) <= cur.len() + 1 + if i < 0 {
            s.len() as int
        } else if i >= s.len() {
            0
        } else {
            s.len() - i
        },
    decreases s.len() - i,
{
    if depth < 0 {
    } else if i < 0 || i >= s.len() {
        let r = split_commas_from(s, i, depth, cur)->Some_0;
        assert(r == seq![cur]);
        lemma_pieces_chars_cons(cur, seq![]);
        assert(r =~= seq![cur] + Seq::<Seq<char>>::empty());
    } else if s[i] == '{' {
        lemma_split_commas_chars(s, i + 1, depth + 1, cur.push('{'));
    } else if s[i] == '}' {
        lemma_split_commas_chars(s, i + 1, depth - 1, cur.push('}'));
    } else if s[i] == ',' && depth == 0 {
        lemma_split_commas_chars(s, i + 1, 0, seq![]);
        let rest = split_commas_from(s, i + 1, 0, seq![])->Some_0;
        lemma_pieces_chars_cons(cur, rest);
    } else {
        lemma_split_commas_chars(s, i + 1, depth, cur.push(s[i]));
    }
}

// ---------------------------------------------------------------------------
// Brace-group expansion
// ---------------------------------------------------------------------------

/// Expands the token tail `ts[i..]` under the already-expanded `prefix` into
/// the list of full segment paths, in textual order. `None` means the
/// statement is malformed: an empty segment, a brace group before the final
/// position, a group without a closing brace, or unbalanced braces inside a
/// group.
pub open spec fn expand_from(ts: Seq<Seq<char>>, i: int, prefix: Seq<Seq<char>>) -> Option<
    Seq<Seq<Seq<char>>>,
>
    decreases toks_chars(ts.skip(i)), ts.len() - i,
{
    if i < 0 {
        None
    } else if i >= ts.len() {
        Some(seq![prefix])
    } else {
        let t = ts[i];
        if t.len() == 0 {
            None
        } else if t[0] == '{' {
            if i != ts.len() - 1 || t.len() < 2 || t.last() != '}' {
                None
            } else {
                let inner = t.subrange(1, t.len() - 1);
                match split_commas(inner) {
                    Some(children) => {
                        proof {
                            lemma_split_commas_chars(inner, 0, 0, seq![]);
                            lemma_skip_last_tok(ts, i);
                            assert(children.skip(0) =~= children);
                        }
                        expand_children(children, 0, prefix)
                    },
                    None => None,
                }
            }
        } else {
            proof {
                lemma_skip_step_tok(ts, i);
            }
            expand_from(ts, i + 1, prefix.push(t))
        }
    }
}

/// Expands each comma-separated child of a brace group under `prefix`,
/// concatenating the results in order.
pub open spec fn expand_children(
    children: Seq<Seq<char>>,
    k: int,
    prefix: Seq<Seq<char>>,
) -> Option<Seq<Seq<Seq<char>>>>
    decreases pieces_chars(children.skip(k)), children.len() - k,
{
    if k < 0 {
        None
    } else if k >= children.len() {
        Some(seq![])
    } else {
        match split_cc(children[k]) {
            None => None,
            Some(ctoks) => {
                proof {
                    lemma_split_cc_chars(children[k], 0, 0, seq![]);
                    lemma_ctoks_skip_zero(ctoks);
                    lemma_pieces_skip_step(children, k);
                }
                match expand_from(ctoks, 0, prefix) {
                    None => None,
                    Some(exps) => match expand_children(children, k + 1, prefix) {
                        None => None,
                        Some(rest) => Some(exps + rest),
                    },
                }
            },
        }
    }
}

pub open spec fn expand_toks(ts: Seq<Seq<char>>) -> Option<Seq<Seq<Seq<char>>>> {
    expand_from(ts, 0, seq![])
}

pub proof fn lemma_skip_step_tok(ts: Seq<Seq<char>>, i: int)
    requires
        0 <= i < ts.len(),
    ensures
        toks_chars(ts.skip(i)) == ts[i].len() + toks_chars(ts.skip(i + 1)),
{
    let tail = ts.skip(i);
    assert(tail[0] == ts[i]);
    assert(tail.drop_first() =~= ts.skip(i + 1));
}

pub proof fn lemma_skip_last_tok(ts: Seq<Seq<char>>, i: int)
    requires
        0 <= i,
        i == ts.len() - 1,
    ensures
        toks_chars(ts.skip(i)) == ts[i].len(),
{
    let tail = ts.skip(i);
    assert(tail[0] == ts[i]);
    assert(tail.drop_first() =~= Seq::<Seq<char>>::empty());
    assert(toks_chars(Seq::<Seq<char>>::empty()) == 0);
    assert(toks_chars(tail) == tail[0].len() + toks_chars(tail.drop_first()));
}

pub proof fn lemma_ctoks_skip_zero(ctoks: Seq<Seq<char>>)
    ensures
        ctoks.skip(0) =~= ctoks,
{
}

pub proof fn lemma_pieces_skip_step(children: Seq<Seq<char>>, k: int)
    requires
        0 <= k < children.len(),
    ensures
        pieces_chars(children.skip(k)) == children[k].len() + 1 + pieces_chars(
            children.skip(k + 1),
        ),
        pieces_chars(children.skip(k)) >= children[k].len() + 1,
{
    let tail = children.skip(k);
    assert(tail[0] == children[k]);
    assert(tail.drop_first() =~= children.skip(k + 1));
    lemma_pieces_chars_nonneg(children.skip(k + 1));
}

pub proof fn lemma_pieces_chars_nonneg(ts: Seq<Seq<char>>)
    ensures
        pieces_chars(ts) >= 0,
    decreases ts.len(),
{
}

pub proof fn lemma_pieces_skip_le(ts: Seq<Seq<char>>, k: int)
    requires
        0 <= k <= ts.len(),
    ensures
        pieces_chars(ts.skip(k)) <= pieces_chars(ts),
    decreases k,
{
    if k == 0 {
        assert(ts.skip(0) =~= ts);
    } else {
        lemma_pieces_skip_le(ts, k - 1);
        lemma_pieces_skip_step(ts, k - 1);
    }
}

// ---------------------------------------------------------------------------
// Line classification
// ---------------------------------------------------------------------------

/// A module declaration: `mod X;` or `pub mod X;` by its first tokens.
pub open spec fn is_mod_decl(toks: Seq<Seq<char>>) -> bool {
    toks.len() > 0 && (toks[0] == "mod"@ || (toks.len() >= 2 && toks[0] == "pub"@ && toks[1]
        == "mod"@))
}

/// An inner directive: the first token starts with `#!`.
pub open spec fn is_directive(toks: Seq<Seq<char>>) -> bool {
    toks.len() > 0 && toks[0].len() >= 2 && toks[0][0] == '#' && toks[0][1] == '!'
}

/// `Some(0)` for a `use` line, `Some(1)` for a `pub use` line: the index of
/// the `use` keyword among the tokens.
pub open spec fn use_offset(toks: Seq<Seq<char>>) -> Option<int> {
    if toks.len() > 0 && toks[0] == "use"@ {
        Some(0int)
    } else if toks.len() >= 2 && toks[0] == "pub"@ && toks[1] == "use"@ {
        Some(1int)
    } else {
        None
    }
}

// ---------------------------------------------------------------------------
// Gathering one statement across lines
// ---------------------------------------------------------------------------

/// Result of scanning gathered statement text for its terminator.
pub enum Scan {
    /// A `;` at brace depth zero stands at this index.
    Term(int),
    /// A closing brace without an opening one: malformed.
    Neg,
    /// No terminator yet: the statement continues on following lines.
    Open,
}

pub open spec fn scan_stmt_from(s: Seq<char>, i: int, depth: int) -> Scan
    decreases s.len() - i,
{
    if depth < 0 {
        Scan::Neg
    } else if i < 0 || i >= s.len() {
        Scan::Open
    } else if s[i] == ';' && depth == 0 {
        Scan::Term(i)
    } else if s[i] == '{' {
        scan_stmt_from(s, i + 1, depth + 1)
    } else if s[i] == '}' {
        scan_stmt_from(s, i + 1, depth - 1)
    } else {
        scan_stmt_from(s, i + 1, depth)
    }
}

pub open spec fn scan_stmt(s: Seq<char>) -> Scan {
    scan_stmt_from(s, 0, 0)
}

/// Accumulates the joined tokens of successive lines starting at line `i`
/// into `acc` until a terminator appears; yields the statement text before
/// the terminator and the index of the first unconsumed line. `None` means
/// the statement is malformed or the file ends first.
pub open spec fn gather_stmt(lines: Seq<Seq<char>>, i: int, acc: Seq<char>) -> Option<
    (Seq<char>, int),
>
    decreases lines.len() - i,
{
    match scan_stmt(acc) {
        Scan::Term(j) => Some((acc.take(j), i)),
        Scan::Neg => None,
        Scan::Open => if i < 0 || i >= lines.len() {
            None
        } else {
            gather_stmt(lines, i + 1, acc + concat_from(tokens_of(lines[i]), 0))
        },
    }
}

pub proof fn lemma_gather_bounds(lines: Seq<Seq<char>>, i: int, acc: Seq<char>)
    requires
        i <= lines.len(),
        gather_stmt(lines, i, acc) is Some,
    ensures
        i <= gather_stmt(lines, i, acc)->Some_0.1 <= lines.len(),
    decreases lines.len() - i,
{
    match scan_stmt(acc) {
        Scan::Term(j) => {
        },
        Scan::Neg => {
        },
        Scan::Open => {
            if 0 <= i < lines.len() {
                lemma_gather_bounds(lines, i + 1, acc + concat_from(tokens_of(lines[i]), 0));
            }
        },
    }
}

// ---------------------------------------------------------------------------
// Import resolution
// ---------------------------------------------------------------------------

/// The session parameters that resolution depends on: the internal alias and
/// the library root directory as path segments.
pub struct Ctx {
    pub alias: Seq<char>,
    pub lib: Seq<Seq<char>>,
}

/// What one expanded import path stands for.
pub enum Resolution {
    /// An import of an outside crate, kept for the output import block.
    External { path: Seq<char>, star: bool },
    /// An import of an internal module, to be inlined from this file.
    Internal { file: Seq<Seq<char>> },
    /// A `super` chain that ascends above the file system root.
    Invalid,
}

/// The number of leading `super` segments.
pub open spec fn count_supers_from(segs: Seq<Seq<char>>, i: int) -> int
    decreases segs.len() - i,
{
    if i < 0 || i >= segs.len() {
        i
    } else if segs[i] == "super"@ {
        count_supers_from(segs, i + 1)
    } else {
        i
    }
}

/// The path segments between the resolved root and the trailing item name.
pub open spec fn item_dropped(segs: Seq<Seq<char>>, ofs: int) -> Seq<Seq<char>> {
    if 0 <= ofs <= segs.len() - 1 {
        segs.subrange(ofs, segs.len() - 1)
    } else {
        seq![]
    }
}

/// Appends the module segments to a base directory, turning the last segment
/// into a file name by adding `.rs`.
pub open spec fn join_rs(base: Seq<Seq<char>>, rest: Seq<Seq<char>>) -> Seq<Seq<char>> {
    if rest.len() == 0 {
        base
    } else {
        base + rest.update(rest.len() - 1, rest.last() + ".rs"@)
    }
}

/// The directory of a file path: the path without its final segment.
pub open spec fn dir_of(p: Seq<Seq<char>>) -> Seq<Seq<char>> {
    if p.len() == 0 {
        p
    } else {
        p.drop_last()
    }
}

/// Classifies one expanded import path, given the directory of the importing
/// file, and resolves internal ones to a module file path.
pub open spec fn resolve(ctx: Ctx, cur_dir: Seq<Seq<char>>, segs: Seq<Seq<char>>) -> Resolution {
    if segs.len() > 0 && segs[0] == "super"@ {
        let sc = count_supers_from(segs, 0);
        if sc - 1 > cur_dir.len() {
            Resolution::Invalid
        } else {
            Resolution::Internal {
                file: join_rs(cur_dir.take(cur_dir.len() - (sc - 1)), item_dropped(segs, sc)),
            }
        }
    } else if segs.len() > 0 && segs[0] == ctx.alias {
        Resolution::Internal { file: join_rs(ctx.lib, item_dropped(segs, 1)) }
    } else if segs.len() >= 2 && segs[0] == "crate"@ && segs[1] == ctx.alias {
        Resolution::Internal { file: join_rs(ctx.lib, item_dropped(segs, 2)) }
    } else {
        Resolution::External {
            path: join_cc(segs),
            star: segs.len() > 0 && segs.last() == "*"@,
        }
    }
}

// ---------------------------------------------------------------------------
// The import sets: lexicographic order and sorted insertion
// ---------------------------------------------------------------------------

/// Lexicographic order on character sequences by code point.
pub open spec fn lex_lt(a: Seq<char>, b: Seq<char>) -> bool
    decreases a.len(),
{
    if b.len() == 0 {
        false
    } else if a.len() == 0 {
        true
    } else if a[0] == b[0] {
        lex_lt(a.drop_first(), b.drop_first())
    } else {
        (a[0] as u32) < (b[0] as u32)
    }
}

/// The lexicographic order is strict: it never holds both ways, nor on equal
/// sequences.
pub proof fn lemma_lex_asym(a: Seq<char>, b: Seq<char>)
    requires
        lex_lt(a, b),
    ensures
        !lex_lt(b, a),
        a != b,
    decreases a.len(),
{
    if b.len() == 0 {
    } else if a.len() == 0 {
    } else if a[0] == b[0] {
        lemma_lex_asym(a.drop_first(), b.drop_first());
        assert(a != b) by {
            if a == b {
                assert(a.drop_first() =~= b.drop_first());
            }
        }
    }
}

/// The lexicographic order is total: distinct sequences compare one way.
pub proof fn lemma_lex_total(a: Seq<char>, b: Seq<char>)
    requires
        a != b,
    ensures
        lex_lt(a, b) || lex_lt(b, a),
    decreases a.len(),
{
    if b.len() == 0 {
        assert(a.len() != 0) by {
            if a.len() == 0 {
                assert(a =~= b);
            }
        }
    } else if a.len() == 0 {
    } else if a[0] == b[0] {
        assert(a.drop_first() != b.drop_first()) by {
            if a.drop_first() == b.drop_first() {
                assert(a =~= seq![a[0]] + a.drop_first());
                assert(b =~= seq![b[0]] + b.drop_first());
            }
        }
        lemma_lex_total(a.drop_first(), b.drop_first());
    } else {
        assert((a[0] as u32) != (b[0] as u32)) by {
            vstd::utf8::char_u32_cast(a[0], a[0] as u32);
            vstd::utf8::char_u32_cast(b[0], b[0] as u32);
        }
    }
}

/// Pushing onto a sequence inserts into its set of elements.
pub proof fn lemma_to_set_push<A>(s: Seq<A>, x: A)
    ensures
        s.push(x).to_set() == s.to_set().insert(x),
{
    let l = s.push(x).to_set();
    let r = s.to_set().insert(x);
    assert forall|e: A| l.contains(e) implies r.contains(e) by {
        let j = choose|j: int| 0 <= j < s.push(x).len() && s.push(x)[j] == e;
        if j < s.len() {
            assert(s[j] == e);
        }
    }
    assert forall|e: A| r.contains(e) implies l.contains(e) by {
        if e == x {
            assert(s.push(x)[s.len() as int] == e);
        } else {
            let j = choose|j: int| 0 <= j < s.len() && s[j] == e;
            assert(s.push(x)[j] == e);
        }
    }
    assert(l =~= r);
}

/// Inserts into a strictly sorted sequence, keeping it sorted and dropping a
/// duplicate.
pub open spec fn sorted_insert(s: Seq<Seq<char>>, x: Seq<char>) -> Seq<Seq<char>>
    decreases s.len(),
{
    if s.len() == 0 {
        seq![x]
    } else if x == s[0] {
        s
    } else if lex_lt(x, s[0]) {
        seq![x] + s
    } else {
        seq![s[0]] + sorted_insert(s.drop_first(), x)
    }
}

// ---------------------------------------------------------------------------
// The file table and the walk state
// ---------------------------------------------------------------------------

/// The first content stored under a path, if any.
pub open spec fn fs_lookup(fs: Seq<(Seq<Seq<char>>, Seq<char>)>, p: Seq<Seq<char>>) -> Option<
    Seq<char>,
>
    decreases fs.len(),
{
    if fs.len() == 0 {
        None
    } else if fs[0].0 == p {
        Some(fs[0].1)
    } else {
        fs_lookup(fs.drop_first(), p)
    }
}

pub open spec fn fs_keys(fs: Seq<(Seq<Seq<char>>, Seq<char>)>) -> Set<Seq<Seq<char>>> {
    fs.map_values(|e: (Seq<Seq<char>>, Seq<char>)| e.0).to_set()
}

pub proof fn lemma_fs_keys_finite(fs: Seq<(Seq<Seq<char>>, Seq<char>)>)
    ensures
        fs_keys(fs).finite(),
{
    broadcast use vstd::seq_lib::seq_to_set_is_finite;

}

pub proof fn lemma_fs_lookup_in_keys(fs: Seq<(Seq<Seq<char>>, Seq<char>)>, p: Seq<Seq<char>>)
    requires
        fs_lookup(fs, p) is Some,
    ensures
        fs_keys(fs).contains(p),
    decreases fs.len(),
{
    let f = |e: (Seq<Seq<char>>, Seq<char>)| e.0;
    if fs.len() == 0 {
    } else if fs[0].0 == p {
        assert(fs.map_values(f)[0] == p);
        assert(fs.map_values(f).contains(p));
    } else {
        lemma_fs_lookup_in_keys(fs.drop_first(), p);
        let j = choose|j: int|
            0 <= j < fs.drop_first().map_values(f).len() && fs.drop_first().map_values(f)[j] == p;
        assert(fs.map_values(f)[j + 1] == p);
        assert(fs.map_values(f).contains(p));
    }
}

/// How many table entries are not yet inlined: the termination measure of the
/// walk.
pub open spec fn rem_count(
    fs: Seq<(Seq<Seq<char>>, Seq<char>)>,
    visited: Set<Seq<Seq<char>>>,
) -> nat {
    fs_keys(fs).difference(visited).len()
}

pub proof fn lemma_rem_count_mono(
    fs: Seq<(Seq<Seq<char>>, Seq<char>)>,
    small: Set<Seq<Seq<char>>>,
    large: Set<Seq<Seq<char>>>,
)
    requires
        small.subset_of(large),
    ensures
        rem_count(fs, large) <= rem_count(fs, small),
{
    lemma_fs_keys_finite(fs);
    assert(fs_keys(fs).difference(large).subset_of(fs_keys(fs).difference(small)));
    vstd::set_lib::lemma_len_subset(
        fs_keys(fs).difference(large),
        fs_keys(fs).difference(small),
    );
}

/// The accumulated traversal state: files already inlined and the two sorted
/// external-import sets.
pub struct UnfoldState {
    pub visited: Set<Seq<Seq<char>>>,
    pub used: Seq<Seq<char>>,
    pub star: Seq<Seq<char>>,
}

pub open spec fn initial_state() -> UnfoldState {
    UnfoldState { visited: Set::empty(), used: seq![], star: seq![] }
}

/// The failures of a walk, each with the offending file path.
pub enum ModelErr {
    Unreadable { path: Seq<Seq<char>> },
    Malformed { path: Seq<Seq<char>> },
}

// ---------------------------------------------------------------------------
// The walk
// ---------------------------------------------------------------------------

/// Processes the lines of the file `cur` from line `i` on, extending the
/// accumulated `body` and `dirs` (inner directives) and the state: blank
/// lines pass through, module declarations are dropped, directives are set
/// aside, import statements are gathered, expanded and handled, and every
/// other line is copied verbatim.
pub open spec fn run_lines(
    fs: Seq<(Seq<Seq<char>>, Seq<char>)>,
    ctx: Ctx,
    cur: Seq<Seq<char>>,
    lines: Seq<Seq<char>>,
    i: int,
    body: Seq<char>,
    dirs: Seq<char>,
    st: UnfoldState,
) -> Result<(Seq<char>, Seq<char>, UnfoldState), ModelErr>
    decreases rem_count(fs, st.visited), lines.len() - i, 0nat,
{
    if i < 0 || i >= lines.len() {
        Ok((body, dirs, st))
    } else {
        let toks = tokens_of(lines[i]);
        if toks.len() == 0 {
            run_lines(fs, ctx, cur, lines, i + 1, body + "\n"@, dirs, st)
        } else if is_mod_decl(toks) {
            run_lines(fs, ctx, cur, lines, i + 1, body, dirs, st)
        } else if is_directive(toks) {
            run_lines(fs, ctx, cur, lines, i + 1, body, dirs + lines[i] + "\n"@, st)
        } else {
            match use_offset(toks) {
                None => run_lines(fs, ctx, cur, lines, i + 1, body + lines[i] + "\n"@, dirs, st),
                Some(ofs) => {
                    let acc0 = concat_from(toks, ofs + 1);
                    match gather_stmt(lines, i + 1, acc0) {
                        None => Err(ModelErr::Malformed { path: cur }),
                        Some((stmt, ni)) => match split_cc(stmt) {
                            None => Err(ModelErr::Malformed { path: cur }),
                            Some(ts) => match expand_toks(ts) {
                                None => Err(ModelErr::Malformed { path: cur }),
                                Some(exps) => {
                                    proof {
                                        lemma_gather_bounds(lines, i + 1, acc0);
                                    }
                                    match handle_imports(
                                        fs,
                                        ctx,
                                        cur,
                                        lines,
                                        ni,
                                        exps,
                                        0,
                                        body,
                                        dirs,
                                        st,
                                    ) {
                                        Err(e) => Err(e),
                                        Ok((b2, d2, st2)) => {
                                            let stz = UnfoldState {
                                                visited: st.visited.union(st2.visited),
                                                used: st2.used,
                                                star: st2.star,
                                            };
                                            proof {
                                                lemma_gather_bounds(lines, i + 1, acc0);
                                                lemma_rem_count_mono(fs, st.visited, stz.visited);
                                            }
                                            run_lines(fs, ctx, cur, lines, ni, b2, d2, stz)
                                        },
                                    }
                                },
                            },
                        },
                    }
                },
            }
        }
    }
}

/// Handles the expanded import paths `exps[k..]` of one statement in order:
/// an external one joins an import set, an internal one already inlined is
/// dropped, and a fresh internal one has its file inlined here, once.
pub open spec fn handle_imports(
    fs: Seq<(Seq<Seq<char>>, Seq<char>)>,
    ctx: Ctx,
    cur: Seq<Seq<char>>,
    lines: Seq<Seq<char>>,
    ni: int,
    exps: Seq<Seq<Seq<char>>>,
    k: int,
    body: Seq<char>,
    dirs: Seq<char>,
    st: UnfoldState,
) -> Result<(Seq<char>, Seq<char>, UnfoldState), ModelErr>
    decreases rem_count(fs, st.visited), lines.len() - ni, exps.len() - k,
{
    if k < 0 || k >= exps.len() {
        Ok((body, dirs, st))
    } else {
        match resolve(ctx, dir_of(cur), exps[k]) {
            Resolution::Invalid => Err(ModelErr::Malformed { path: cur }),
            Resolution::External { path, star } => {
                let st2 = if star {
                    UnfoldState { visited: st.visited, used: st.used, star: sorted_insert(st.star, path) }
                } else {
                    UnfoldState { visited: st.visited, used: sorted_insert(st.used, path), star: st.star }
                };
                handle_imports(fs, ctx, cur, lines, ni, exps, k + 1, body, dirs, st2)
            },
            Resolution::Internal { file } => {
                if st.visited.contains(file) {
                    handle_imports(fs, ctx, cur, lines, ni, exps, k + 1, body, dirs, st)
                } else {
                    let st_ins = UnfoldState {
                        visited: st.visited.insert(file),
                        used: st.used,
                        star: st.star,
                    };
                    match fs_lookup(fs, file) {
                        None => Err(ModelErr::Unreadable { path: file }),
                        Some(content) => {
                            proof {
                                lemma_fs_keys_finite(fs);
                                lemma_fs_lookup_in_keys(fs, file);
                                fs_keys(fs).lemma_set_insert_diff_decreases(st.visited, file);
                            }
                            match run_lines(
                                fs,
                                ctx,
                                file,
                                lines_of(content),
                                0,
                                Seq::empty(),
                                Seq::empty(),
                                st_ins,
                            ) {
                                Err(e) => Err(e),
                                Ok((cb, cd, stc)) => {
                                    let stz = UnfoldState {
                                        visited: st_ins.visited.union(stc.visited),
                                        used: stc.used,
                                        star: stc.star,
                                    };
                                    proof {
                                        lemma_rem_count_mono(fs, st.visited, stz.visited);
                                    }
                                    handle_imports(
                                        fs,
                                        ctx,
                                        cur,
                                        lines,
                                        ni,
                                        exps,
                                        k + 1,
                                        body + cb + "\n"@,
                                        dirs,
                                        stz,
                                    )
                                },
                            }
                        },
                    }
                }
            },
        }
    }
}

/// Inlines one file: looks its content up and runs its lines from the top
/// with empty accumulators.
pub open spec fn process_file(
    fs: Seq<(Seq<Seq<char>>, Seq<char>)>,
    ctx: Ctx,
    path: Seq<Seq<char>>,
    st: UnfoldState,
) -> Result<(Seq<char>, Seq<char>, UnfoldState), ModelErr> {
    match fs_lookup(fs, path) {
        None => Err(ModelErr::Unreadable { path }),
        Some(content) => run_lines(
            fs,
            ctx,
            path,
            lines_of(content),
            0,
            Seq::empty(),
            Seq::empty(),
            st,
        ),
    }
}

// ---------------------------------------------------------------------------
// Rendering the external-import block
// ---------------------------------------------------------------------------

/// The parts of a canonical path split at every `::`.
pub open spec fn plain_split_from(s: Seq<char>, i: int, cur: Seq<char>) -> Seq<Seq<char>>
    decreases s.len() - i,
{
    if i < 0 || i >= s.len() {
        seq![cur]
    } else if s[i] == ':' && i + 1 < s.len() && s[i + 1] == ':' {
        seq![cur] + plain_split_from(s, i + 2, seq![])
    } else {
        plain_split_from(s, i + 1, cur.push(s[i]))
    }
}

pub open spec fn plain_split(s: Seq<char>) -> Seq<Seq<char>> {
    plain_split_from(s, 0, seq![])
}

pub proof fn lemma_plain_split_nonempty(s: Seq<char>, i: int, cur: Seq<char>)
    ensures
        plain_split_from(s, i, cur).len() >= 1,
    decreases s.len() - i,
{
    if i < 0 || i >= s.len() {
    } else if s[i] == ':' && i + 1 < s.len() && s[i + 1] == ':' {
        lemma_plain_split_nonempty(s, i + 2, seq![]);
    } else {
        lemma_plain_split_nonempty(s, i + 1, cur.push(s[i]));
    }
}

/// The segments of a directory path split at every `/`.
pub open spec fn slash_split_from(s: Seq<char>, i: int, cur: Seq<char>) -> Seq<Seq<char>>
    decreases s.len() - i,
{
    if i < 0 || i >= s.len() {
        seq![cur]
    } else if s[i] == '/' {
        seq![cur] + slash_split_from(s, i + 1, seq![])
    } else {
        slash_split_from(s, i + 1, cur.push(s[i]))
    }
}

pub open spec fn slash_split(s: Seq<char>) -> Seq<Seq<char>> {
    slash_split_from(s, 0, seq![])
}

/// An explicit import is covered when some prefix of its `::` chain,
/// extended with `::*`, stands in the wildcard set.
pub open spec fn covered(p: Seq<char>, star: Seq<Seq<char>>) -> bool {
    exists|k: int|
        1 <= k <= plain_split(p).len() && star.contains(
            join_cc(plain_split(p).take(k)) + "::*"@,
        )
}

pub open spec fn use_line(p: Seq<char>) -> Seq<char> {
    "use "@ + p + ";\n"@
}

/// The predicate that keeps an explicit import: it is not covered by any
/// wildcard import.
pub open spec fn keeps(star: Seq<Seq<char>>) -> spec_fn(Seq<char>) -> bool {
    |q: Seq<char>| !covered(q, star)
}

/// The import paths that reach the output: every wildcard import, then every
/// explicit import not covered by a wildcard, each set in its stored order.
pub open spec fn emitted(used: Seq<Seq<char>>, star: Seq<Seq<char>>) -> Seq<Seq<char>> {
    star + used.filter(keeps(star))
}

/// Extending a joined prefix by one segment appends a separator and the
/// segment.
pub proof fn lemma_join_snoc_from(l: Seq<Seq<char>>, i: int, k: int)
    requires
        0 <= i < k < l.len(),
    ensures
        join_cc_from(l.take(k + 1), i) == join_cc_from(l.take(k), i) + "::"@ + l[k],
    decreases k - i,
{
    let a = l.take(k + 1);
    let b = l.take(k);
    if i == k - 1 {
        assert(join_cc_from(a, i) == a[i] + "::"@ + join_cc_from(a, i + 1));
        assert(join_cc_from(a, i + 1) == a[k]);
        assert(join_cc_from(b, i) == b[i]);
    } else {
        lemma_join_snoc_from(l, i + 1, k);
        assert(join_cc_from(a, i) == a[i] + "::"@ + join_cc_from(a, i + 1));
        assert(join_cc_from(b, i) == b[i] + "::"@ + join_cc_from(b, i + 1));
        assert((l[i] + "::"@) + (join_cc_from(b, i + 1) + "::"@ + l[k]) =~= ((l[i] + "::"@)
            + join_cc_from(b, i + 1)) + "::"@ + l[k]);
        assert(l[i] + "::"@ + join_cc_from(b, i + 1) =~= (l[i] + "::"@) + join_cc_from(b, i + 1));
        assert(l[i] + "::"@ + (join_cc_from(b, i + 1) + "::"@ + l[k]) =~= (l[i] + "::"@) + (
        join_cc_from(b, i + 1) + "::"@ + l[k]));
    }
}

pub proof fn lemma_join_snoc(l: Seq<Seq<char>>, k: int)
    requires
        1 <= k < l.len(),
    ensures
        join_cc(l.take(k + 1)) == join_cc(l.take(k)) + "::"@ + l[k],
{
    lemma_join_snoc_from(l, 0, k);
}

pub open spec fn render_list(l: Seq<Seq<char>>, i: int) -> Seq<char>
    decreases l.len() - i,
{
    if i < 0 || i >= l.len() {
        seq![]
    } else {
        use_line(l[i]) + render_list(l, i + 1)
    }
}

pub open spec fn render_uses(used: Seq<Seq<char>>, star: Seq<Seq<char>>) -> Seq<char> {
    render_list(emitted(used, star), 0)
}

/// The whole translation: the entry file's directives, the merged external
/// import block, and the inlined body.
pub open spec fn spec_unfold(
    fs: Seq<(Seq<Seq<char>>, Seq<char>)>,
    ctx: Ctx,
    entry: Seq<Seq<char>>,
    st: UnfoldState,
) -> Result<Seq<char>, ModelErr> {
    match process_file(fs, ctx, entry, st) {
        Err(e) => Err(e),
        Ok((body, dirs, st2)) => Ok(dirs + render_uses(st2.used, st2.star) + body),
    }
}

} // verus!
