//! The markup parser.  At each position the grammar tries, in order: an
//! escape sequence (`\\`, `\[`, `\]`), a control block (`[name]` or
//! `[name|opt,...]`), and a maximal run of literal text.  Parsing stops the
//! moment no alternative matches; fragments accumulated so far are returned
//! and the unconsumed tail is discarded.  Adjacent plain fragments are folded
//! into one.

use vstd::prelude::*;
use vstd::string::*;

use crate::fragment::{
    ctrl_view, dedup_opts, frags_view, plain_view, push_unique, strings_view, FragView,
    PromptFragment,
};

verus! {

/// Characters that end a control name or an option token.
pub open spec fn is_name_stop(c: char) -> bool {
    c == '[' || c == ']' || c == '|' || c == '#' || c == ','
}

/// Characters that may follow a backslash in an escape sequence; the same
/// three characters end a run of literal text.
pub open spec fn is_escapable(c: char) -> bool {
    c == '\\' || c == '[' || c == ']'
}

/// Characters that separate option tokens inside a control block.
pub open spec fn is_sep(c: char) -> bool {
    c == '#' || c == ','
}

/// First position at or after `i` holding a character that ends a control
/// name or option token (or the end of input).
pub open spec fn name_run_end(s: Seq<char>, i: int) -> int
    decreases s.len() - i,
{
    if i < 0 || i >= s.len() || is_name_stop(s[i]) {
        i
    } else {
        name_run_end(s, i + 1)
    }
}

/// First position at or after `i` holding a character that ends a run of
/// literal text (or the end of input).
pub open spec fn text_run_end(s: Seq<char>, i: int) -> int
    decreases s.len() - i,
{
    if i < 0 || i >= s.len() || is_escapable(s[i]) {
        i
    } else {
        text_run_end(s, i + 1)
    }
}

/// First position at or after `i` holding a character that is not an option
/// separator (or the end of input).
pub open spec fn sep_run_end(s: Seq<char>, i: int) -> int
    decreases s.len() - i,
{
    if i < 0 || i >= s.len() || !is_sep(s[i]) {
        i
    } else {
        sep_run_end(s, i + 1)
    }
}

pub proof fn lemma_name_run_end(s: Seq<char>, i: int)
    requires
        0 <= i <= s.len(),
    ensures
        ({
            let e = name_run_end(s, i);
            &&& i <= e <= s.len()
            &&& forall|k: int| i <= k < e ==> !is_name_stop(s[k])
            &&& e < s.len() ==> is_name_stop(s[e])
        }),
    decreases s.len() - i,
{
    if i < s.len() && !is_name_stop(s[i]) {
        lemma_name_run_end(s, i + 1);
    }
}

pub proof fn lemma_name_run_end_is(s: Seq<char>, i: int, j: int)
    requires
        0 <= i <= j <= s.len(),
        forall|k: int| i <= k < j ==> !is_name_stop(s[k]),
        j == s.len() || is_name_stop(s[j]),
    ensures
        name_run_end(s, i) == j,
{
    lemma_name_run_end(s, i);
}

pub proof fn lemma_text_run_end(s: Seq<char>, i: int)
    requires
        0 <= i <= s.len(),
    ensures
        ({
            let e = text_run_end(s, i);
            &&& i <= e <= s.len()
            &&& forall|k: int| i <= k < e ==> !is_escapable(s[k])
            &&& e < s.len() ==> is_escapable(s[e])
        }),
    decreases s.len() - i,
{
    if i < s.len() && !is_escapable(s[i]) {
        lemma_text_run_end(s, i + 1);
    }
}

pub proof fn lemma_text_run_end_is(s: Seq<char>, i: int, j: int)
    requires
        0 <= i <= j <= s.len(),
        forall|k: int| i <= k < j ==> !is_escapable(s[k]),
        j == s.len() || is_escapable(s[j]),
    ensures
        text_run_end(s, i) == j,
{
    lemma_text_run_end(s, i);
}

pub proof fn lemma_sep_run_end(s: Seq<char>, i: int)
    requires
        0 <= i <= s.len(),
    ensures
        ({
            let e = sep_run_end(s, i);
            &&& i <= e <= s.len()
            &&& forall|k: int| i <= k < e ==> is_sep(s[k])
            &&& e < s.len() ==> !is_sep(s[e])
        }),
    decreases s.len() - i,
{
    if i < s.len() && is_sep(s[i]) {
        lemma_sep_run_end(s, i + 1);
    }
}

pub proof fn lemma_sep_run_end_is(s: Seq<char>, i: int, j: int)
    requires
        0 <= i <= j <= s.len(),
        forall|k: int| i <= k < j ==> is_sep(s[k]),
        j == s.len() || !is_sep(s[j]),
    ensures
        sep_run_end(s, i) == j,
{
    lemma_sep_run_end(s, i);
}

/// Option list after the `|` of a control block: one or more option tokens
/// separated by runs of separator characters.  Returns the tokens (in source
/// order, duplicates kept) and the position just after the last token; `None`
/// when no well-formed option list starts at `i`.
pub open spec fn parse_opts_at(s: Seq<char>, i: int) -> Option<(Seq<Seq<char>>, int)>
    decreases s.len() - i,
{
    if !(0 <= i <= s.len()) {
        None
    } else {
        let te = name_run_end(s, i);
        if te <= i || te > s.len() {
            None
        } else {
            let tok = s.subrange(i, te);
            if te < s.len() && is_sep(s[te]) {
                let q = sep_run_end(s, te);
                if q <= te || q > s.len() {
                    None
                } else {
                    match parse_opts_at(s, q) {
                        None => None,
                        Some(r) => Some((seq![tok] + r.0, r.1)),
                    }
                }
            } else {
                Some((seq![tok], te))
            }
        }
    }
}

/// Control block at `i`: `[` name `]` or `[` name `|` options `]`.  Returns
/// the name, the option tokens (empty without `|`) and the position just
/// after the closing `]`; `None` when no well-formed control block starts at
/// `i`.
pub open spec fn parse_control_at(s: Seq<char>, i: int) -> Option<(Seq<char>, Seq<Seq<char>>, int)> {
    if !(0 <= i < s.len() && s[i] == '[') {
        None
    } else {
        let ne = name_run_end(s, i + 1);
        if ne <= i + 1 || ne > s.len() {
            None
        } else {
            let name = s.subrange(i + 1, ne);
            if ne < s.len() && s[ne] == ']' {
                Some((name, Seq::empty(), ne + 1))
            } else if ne < s.len() && s[ne] == '|' {
                match parse_opts_at(s, ne + 1) {
                    None => None,
                    Some(r) => {
                        if r.1 < s.len() && s[r.1] == ']' {
                            Some((name, r.0, r.1 + 1))
                        } else {
                            None
                        }
                    },
                }
            } else {
                None
            }
        }
    }
}

/// One token of the grammar at position `i`, with the position just after
/// it: an escape (a one-character plain fragment), a control block (options
/// deduplicated), or a maximal nonempty run of literal text.  `None` when no
/// alternative matches at `i`.
pub open spec fn next_token_at(s: Seq<char>, i: int) -> Option<(FragView, int)> {
    if !(0 <= i < s.len()) {
        None
    } else if s[i] == '\\' {
        if i + 1 < s.len() && is_escapable(s[i + 1]) {
            Some((plain_view(seq![s[i + 1]]), i + 2))
        } else {
            None
        }
    } else if s[i] == '[' {
        match parse_control_at(s, i) {
            None => None,
            Some(r) => Some((ctrl_view(r.0, dedup_opts(r.1)), r.2)),
        }
    } else if s[i] == ']' {
        None
    } else {
        Some((plain_view(s.subrange(i, text_run_end(s, i))), text_run_end(s, i)))
    }
}

pub proof fn lemma_parse_opts_bounds(s: Seq<char>, i: int)
    requires
        parse_opts_at(s, i) is Some,
    ensures
        i < (parse_opts_at(s, i)->0).1 <= s.len(),
        (parse_opts_at(s, i)->0).0.len() >= 1,
    decreases s.len() - i,
{
    let te = name_run_end(s, i);
    if te < s.len() && is_sep(s[te]) {
        let q = sep_run_end(s, te);
        if te < q <= s.len() && parse_opts_at(s, q) is Some {
            lemma_parse_opts_bounds(s, q);
        }
    }
}

pub proof fn lemma_parse_control_bounds(s: Seq<char>, i: int)
    requires
        parse_control_at(s, i) is Some,
    ensures
        i + 2 < (parse_control_at(s, i)->0).2 <= s.len(),
{
    let ne = name_run_end(s, i + 1);
    if ne < s.len() && s[ne] == '|' {
        lemma_parse_opts_bounds(s, ne + 1);
    }
}

pub proof fn lemma_next_token_bounds(s: Seq<char>, i: int)
    requires
        next_token_at(s, i) is Some,
    ensures
        i < (next_token_at(s, i)->0).1 <= s.len(),
{
    if 0 <= i < s.len() && s[i] != '\\' && s[i] != '[' && s[i] != ']' {
        lemma_text_run_end(s, i);
    }
    if 0 <= i < s.len() && s[i] == '[' {
        lemma_parse_control_bounds(s, i);
    }
}

/// The token stream from position `i` on: tokens in source order, up to the
/// first position where no alternative matches.
pub open spec fn tokens_from(s: Seq<char>, i: int) -> Seq<FragView>
    decreases s.len() - i,
{
    match next_token_at(s, i) {
        None => Seq::empty(),
        Some(r) => {
            if i < r.1 <= s.len() {
                seq![r.0] + tokens_from(s, r.1)
            } else {
                seq![r.0]
            }
        },
    }
}

/// Appends a token to the folded output: a plain token is concatenated onto a
/// plain last fragment; anything else starts a new entry.
pub open spec fn push_fold(acc: Seq<FragView>, f: FragView) -> Seq<FragView> {
    if acc.len() > 0 && acc.last().opts is None && f.opts is None {
        acc.drop_last().push(plain_view(acc.last().text + f.text))
    } else {
        acc.push(f)
    }
}

/// Left-to-right folding of a token stream: adjacent plain fragments merge.
pub open spec fn fold_frags(fs: Seq<FragView>) -> Seq<FragView>
    decreases fs.len(),
{
    if fs.len() == 0 {
        Seq::empty()
    } else {
        push_fold(fold_frags(fs.drop_last()), fs.last())
    }
}

/// The parse of a whole input: its token stream, folded.
pub open spec fn spec_parse(s: Seq<char>) -> Seq<FragView> {
    fold_frags(tokens_from(s, 0))
}

pub proof fn lemma_fold_push(fs: Seq<FragView>, f: FragView)
    ensures
        fold_frags(fs.push(f)) == push_fold(fold_frags(fs), f),
{
    assert(fs.push(f).drop_last() =~= fs);
}

/// Scans a control name or option token: the maximal run of characters
/// excluding `[`, `]`, `|`, `#` and `,` starting at `start`.
fn parse_control_string(input: &str, start: usize) -> (end: usize)
    requires
        start <= input@.len(),
    ensures
        start <= end <= input@.len(),
        end as int == name_run_end(input@, start as int),
{
    let n = input.unicode_len();
    let mut j = start;
    loop
        invariant
            start <= j <= n,
            n == input@.len(),
            forall|k: int| start <= k < j ==> !is_name_stop(input@[k]),
        ensures
            start <= j <= n,
            forall|k: int| start <= k < j ==> !is_name_stop(input@[k]),
            j == n || is_name_stop(input@[j as int]),
        decreases n - j,
    {
        if j == n {
            break;
        }
        let c = input.get_char(j);
        if c == '[' || c == ']' || c == '|' || c == '#' || c == ',' {
            break;
        }
        j += 1;
    }
    proof {
        lemma_name_run_end_is(input@, start as int, j as int);
    }
    j
}

/// Scans literal text: the maximal run of characters excluding `\`, `[` and
/// `]` starting at `start`.
fn parse_string(input: &str, start: usize) -> (end: usize)
    requires
        start <= input@.len(),
    ensures
        start <= end <= input@.len(),
        end as int == text_run_end(input@, start as int),
{
    let n = input.unicode_len();
    let mut j = start;
    loop
        invariant
            start <= j <= n,
            n == input@.len(),
            forall|k: int| start <= k < j ==> !is_escapable(input@[k]),
        ensures
            start <= j <= n,
            forall|k: int| start <= k < j ==> !is_escapable(input@[k]),
            j == n || is_escapable(input@[j as int]),
        decreases n - j,
    {
        if j == n {
            break;
        }
        let c = input.get_char(j);
        if c == '\\' || c == '[' || c == ']' {
            break;
        }
        j += 1;
    }
    proof {
        lemma_text_run_end_is(input@, start as int, j as int);
    }
    j
}

/// Recognizes an escape sequence at `start`: a backslash followed by `\`,
/// `[` or `]` yields the escaped character.
fn parse_escaped_char(input: &str, start: usize) -> (r: Option<char>)
    requires
        start < input@.len(),
    ensures
        match r {
            Some(c) => start + 1 < input@.len() && input@[start as int] == '\\' && is_escapable(
                input@[start as int + 1],
            ) && c == input@[start as int + 1],
            None => !(input@[start as int] == '\\' && start + 1 < input@.len() && is_escapable(
                input@[start as int + 1],
            )),
        },
{
    let n = input.unicode_len();
    if input.get_char(start) != '\\' {
        return None;
    }
    if start + 1 == n {
        return None;
    }
    let c = input.get_char(start + 1);
    if c == '\\' || c == '[' || c == ']' {
        Some(c)
    } else {
        None
    }
}

/// Recognizes a control block at `start` (which must hold `[`), returning
/// the fragment (options deduplicated) and the position just after `]`.
fn parse_control(input: &str, start: usize) -> (r: Option<(PromptFragment, usize)>)
    requires
        start < input@.len(),
        input@[start as int] == '[',
    ensures
        match r {
            None => parse_control_at(input@, start as int) is None,
            Some((f, e)) => {
                &&& parse_control_at(input@, start as int) is Some
                &&& f@ == ctrl_view(
                    (parse_control_at(input@, start as int)->0).0,
                    dedup_opts((parse_control_at(input@, start as int)->0).1),
                )
                &&& e as int == (parse_control_at(input@, start as int)->0).2
            },
        },
{
    let ghost s = input@;
    let n = input.unicode_len();
    let ne = parse_control_string(input, start + 1);
    proof {
        lemma_name_run_end(s, start as int + 1);
    }
    if ne == start + 1 {
        return None;
    }
    let name = input.substring_char(start + 1, ne);
    if ne == n {
        return None;
    }
    let c = input.get_char(ne);
    if c == ']' {
        let frag = PromptFragment { string: name.to_owned(), options: Some(Vec::new()) };
        proof {
            assert(strings_view(Seq::<String>::empty()) =~= Seq::<Seq<char>>::empty());
            assert(dedup_opts(Seq::<Seq<char>>::empty()) =~= Seq::<Seq<char>>::empty());
        }
        return Some((frag, ne + 1));
    }
    if c != '|' {
        return None;
    }
    // Option list: one or more tokens separated by runs of `#` and `,`.
    let mut opts: Vec<String> = Vec::new();
    let mut pos = ne + 1;
    let ghost mut toks: Seq<Seq<char>> = Seq::empty();
    proof {
        assert(strings_view(opts@) =~= Seq::<Seq<char>>::empty());
        assert(dedup_opts(toks) =~= Seq::<Seq<char>>::empty());
        assert(toks + (parse_opts_at(s, pos as int)->0).0 =~= (parse_opts_at(s, pos as int)->0).0);
    }
    loop
        invariant
            s == input@,
            n == s.len(),
            s[start as int] == '[',
            start as int + 1 < ne < pos <= n,
            s[ne as int] == '|',
            name@ == s.subrange(start as int + 1, ne as int),
            ne as int == name_run_end(s, start as int + 1),
            strings_view(opts@) == dedup_opts(toks),
            parse_opts_at(s, ne as int + 1) == (match parse_opts_at(s, pos as int) {
                None => None::<(Seq<Seq<char>>, int)>,
                Some(r) => Some((toks + r.0, r.1)),
            }),
        decreases n - pos,
    {
        let te = parse_control_string(input, pos);
        proof {
            lemma_name_run_end(s, pos as int);
        }
        if te == pos {
            return None;
        }
        let tok = input.substring_char(pos, te);
        let ghost pre = toks;
        push_unique(&mut opts, tok.to_owned());
        proof {
            toks = toks.push(tok@);
            crate::fragment::lemma_dedup_push(pre, tok@);
        }
        if te == n {
            return None;
        }
        let cc = input.get_char(te);
        if cc == ']' {
            proof {
                assert(parse_opts_at(s, pos as int) == Some((seq![s.subrange(pos as int, te as int)], te as int)));
                assert(pre + seq![tok@] =~= toks);
                assert(parse_opts_at(s, ne as int + 1) == Some((toks, te as int)));
                assert(parse_control_at(s, start as int) == Some((s.subrange(start as int + 1, ne as int), toks, te as int + 1)));
                assert(strings_view(opts@) == dedup_opts(toks));
            }
            let frag = PromptFragment { string: name.to_owned(), options: Some(opts) };
            return Some((frag, te + 1));
        }
        if cc != '#' && cc != ',' {
            return None;
        }
        // Skip the run of separator characters.
        let mut q = te;
        loop
            invariant
                s == input@,
                n == s.len(),
                te < n,
                is_sep(s[te as int]),
                te <= q <= n,
                forall|k: int| te <= k < q ==> is_sep(s[k]),
            ensures
                te < q <= n,
                forall|k: int| te <= k < q ==> is_sep(s[k]),
                q == n || !is_sep(s[q as int]),
            decreases n - q,
        {
            if q == n {
                break;
            }
            let sc = input.get_char(q);
            if sc != '#' && sc != ',' {
                break;
            }
            q += 1;
        }
        proof {
            lemma_sep_run_end_is(s, te as int, q as int);
            let tv = s.subrange(pos as int, te as int);
            assert(parse_opts_at(s, pos as int) == (match parse_opts_at(s, q as int) {
                None => None::<(Seq<Seq<char>>, int)>,
                Some(r) => Some((seq![tv] + r.0, r.1)),
            }));
            match parse_opts_at(s, q as int) {
                None => {},
                Some(r) => {
                    assert(pre + (seq![tv] + r.0) =~= toks + r.0);
                },
            }
        }
        pos = q;
    }
}

/// Appends a freshly parsed fragment to the output, concatenating a plain
/// fragment onto a plain last entry instead of starting a new one.
fn push_frag(out: &mut Vec<PromptFragment>, f: PromptFragment)
    ensures
        frags_view(final(out)@) == push_fold(frags_view(old(out)@), f@),
{
    let ghost fv = f@;
    if f.options.is_none() && out.len() > 0 {
        let li = out.len() - 1;
        if out[li].options.is_none() {
            let mut last = out.pop().unwrap();
            let ghost lastv = last@;
            last.string.append(f.string.as_str());
            out.push(last);
            proof {
                assert(frags_view(out@) =~= push_fold(frags_view(old(out)@), fv));
            }
            return ;
        }
    }
    out.push(f);
    proof {
        assert(frags_view(out@) =~= push_fold(frags_view(old(out)@), fv));
    }
}

/// Tries the three grammar alternatives at `start`: escape, control block,
/// literal text.  Returns the fragment and the position just after it, or
/// `None` when no alternative matches.
fn parse_fragment(input: &str, start: usize) -> (r: Option<(PromptFragment, usize)>)
    requires
        start <= input@.len(),
    ensures
        match r {
            None => next_token_at(input@, start as int) is None,
            Some((f, e)) => {
                &&& next_token_at(input@, start as int) == Some((f@, e as int))
                &&& start < e <= input@.len()
            },
        },
{
    let n = input.unicode_len();
    if start == n {
        return None;
    }
    let c0 = input.get_char(start);
    if c0 == '\\' {
        match parse_escaped_char(input, start) {
            Some(c) => Some((PromptFragment::char(c), start + 2)),
            None => None,
        }
    } else if c0 == '[' {
        let r = parse_control(input, start);
        proof {
            if parse_control_at(input@, start as int) is Some {
                lemma_parse_control_bounds(input@, start as int);
            }
        }
        r
    } else if c0 == ']' {
        None
    } else {
        let e = parse_string(input, start);
        proof {
            lemma_text_run_end(input@, start as int);
        }
        let t = input.substring_char(start, e);
        Some((PromptFragment::string(t), e))
    }
}

/// Parses a whole template: tokens are read left to right until no
/// alternative matches, and folded so that adjacent plain fragments merge.
/// Any unconsumed tail of the input is discarded.
pub fn parse_markup(input: &str) -> (r: Vec<PromptFragment>)
    ensures
        frags_view(r@) == spec_parse(input@),
{
    let ghost s = input@;
    let n = input.unicode_len();
    let mut out: Vec<PromptFragment> = Vec::new();
    let mut i: usize = 0;
    let ghost mut tks: Seq<FragView> = Seq::empty();
    proof {
        assert(frags_view(out@) =~= Seq::<FragView>::empty());
        assert(tks + tokens_from(s, 0) =~= tokens_from(s, 0));
    }
    loop
        invariant
            s == input@,
            n == s.len(),
            0 <= i <= n,
            tokens_from(s, 0) == tks + tokens_from(s, i as int),
            frags_view(out@) == fold_frags(tks),
        ensures
            frags_view(out@) == fold_frags(tks),
            tokens_from(s, 0) == tks + tokens_from(s, i as int),
            next_token_at(s, i as int) is None,
        decreases n - i,
    {
        match parse_fragment(input, i) {
            None => {
                break ;
            },
            Some((f, e)) => {
                let ghost fv = f@;
                proof {
                    assert(tokens_from(s, i as int) == seq![fv] + tokens_from(s, e as int));
                    lemma_fold_push(tks, fv);
                    assert(tks + (seq![fv] + tokens_from(s, e as int)) =~= tks.push(fv)
                        + tokens_from(s, e as int));
                }
                push_frag(&mut out, f);
                proof {
                    tks = tks.push(fv);
                }
                i = e;
            },
        }
    }
    proof {
        assert(tokens_from(s, i as int) =~= Seq::<FragView>::empty());
        assert(tks + Seq::<FragView>::empty() =~= tks);
    }
    out
}

} // verus!
