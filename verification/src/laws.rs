//! Laws of the parser and the fragment model: every parse is well formed and
//! folded, folding never changes the rendered text, and re-parsing a rendered
//! fragment sequence recovers it exactly (for sequences whose plain text
//! holds no markup characters).

use vstd::prelude::*;

use crate::fragment::{
    ctrl_view, dedup_opts, join_opts, plain_view, render_frag, FragView,
};
use crate::parser::{
    fold_frags, is_escapable, is_name_stop, is_sep, lemma_name_run_end, lemma_name_run_end_is,
    lemma_next_token_bounds, lemma_sep_run_end_is, lemma_text_run_end, lemma_text_run_end_is,
    name_run_end, next_token_at, parse_control_at, parse_opts_at, push_fold, sep_run_end,
    spec_parse, text_run_end, tokens_from,
};
use crate::template::{lemma_render_frags_push, render_frags};

verus! {

/// A valid control name or option token: nonempty, with no character that
/// the grammar treats as a delimiter inside a control block.
pub open spec fn opt_token_wf(t: Seq<char>) -> bool {
    t.len() > 0 && forall|k: int| 0 <= k < t.len() ==> !is_name_stop(t[k])
}

/// A well-formed fragment: plain text is nonempty; a control fragment has a
/// valid name and valid, pairwise-distinct options.
pub open spec fn frag_wf(f: FragView) -> bool {
    match f.opts {
        None => f.text.len() > 0,
        Some(opts) => {
            &&& opt_token_wf(f.text)
            &&& forall|j: int| 0 <= j < opts.len() ==> opt_token_wf(#[trigger] opts[j])
            &&& forall|j1: int, j2: int| 0 <= j1 < j2 < opts.len() ==> opts[j1] != opts[j2]
        },
    }
}

/// A well-formed, folded fragment sequence: every fragment is well formed
/// and no two adjacent fragments are both plain.
pub open spec fn frags_folded(fs: Seq<FragView>) -> bool {
    &&& forall|k: int| 0 <= k < fs.len() ==> frag_wf(#[trigger] fs[k])
    &&& forall|k: int|
        0 <= k < fs.len() - 1 ==> !((#[trigger] fs[k]).opts is None && fs[k + 1].opts is None)
}

pub proof fn lemma_dedup_wf(opts: Seq<Seq<char>>)
    ensures
        forall|j: int|
            0 <= j < dedup_opts(opts).len() ==> opts.contains(#[trigger] dedup_opts(opts)[j]),
        forall|j1: int, j2: int|
            0 <= j1 < j2 < dedup_opts(opts).len() ==> dedup_opts(opts)[j1] != dedup_opts(opts)[j2],
    decreases opts.len(),
{
    if opts.len() > 0 {
        lemma_dedup_wf(opts.drop_last());
        let pre = dedup_opts(opts.drop_last());
        assert forall|j: int| 0 <= j < pre.len() implies opts.contains(pre[j]) by {
            assert(opts.drop_last().contains(pre[j]));
            let i = choose|i: int|
                0 <= i < opts.drop_last().len() && opts.drop_last()[i] == pre[j];
            assert(opts[i] == pre[j]);
        }
        if !pre.contains(opts.last()) {
            assert(opts[opts.len() - 1] == opts.last());
            assert forall|j: int| 0 <= j < pre.len() implies pre[j] != opts.last() by {
                assert(pre.contains(pre[j]));
            }
        }
    }
}

pub proof fn lemma_parse_opts_wf(s: Seq<char>, i: int)
    requires
        parse_opts_at(s, i) is Some,
    ensures
        forall|j: int|
            0 <= j < (parse_opts_at(s, i)->0).0.len() ==> opt_token_wf(
                #[trigger] (parse_opts_at(s, i)->0).0[j],
            ),
    decreases s.len() - i,
{
    let te = name_run_end(s, i);
    lemma_name_run_end(s, i);
    let tok = s.subrange(i, te);
    assert(opt_token_wf(tok));
    if te < s.len() && is_sep(s[te]) {
        let q = sep_run_end(s, te);
        if te < q <= s.len() && parse_opts_at(s, q) is Some {
            lemma_parse_opts_wf(s, q);
            let rest = (parse_opts_at(s, q)->0).0;
            assert forall|j: int|
                0 <= j < (parse_opts_at(s, i)->0).0.len() implies opt_token_wf(
                (parse_opts_at(s, i)->0).0[j],
            ) by {
                if j == 0 {
                    assert((parse_opts_at(s, i)->0).0[j] == tok);
                } else {
                    assert((parse_opts_at(s, i)->0).0[j] == rest[j - 1]);
                }
            }
        }
    }
}

pub proof fn lemma_next_token_wf(s: Seq<char>, i: int)
    requires
        next_token_at(s, i) is Some,
    ensures
        frag_wf((next_token_at(s, i)->0).0),
{
    if s[i] == '\\' {
    } else if s[i] == '[' {
        let c = parse_control_at(s, i)->0;
        lemma_name_run_end(s, i + 1);
        assert(opt_token_wf(c.0));
        let ne = name_run_end(s, i + 1);
        if ne < s.len() && s[ne] == '|' {
            lemma_parse_opts_wf(s, ne + 1);
        }
        lemma_dedup_wf(c.1);
        let dd = dedup_opts(c.1);
        assert forall|j: int| 0 <= j < dd.len() implies opt_token_wf(dd[j]) by {
            assert(c.1.contains(dd[j]));
            let w = choose|w: int| 0 <= w < c.1.len() && c.1[w] == dd[j];
            assert(opt_token_wf(c.1[w]));
        }
    } else if s[i] == ']' {
    } else {
        lemma_text_run_end(s, i);
    }
}

pub proof fn lemma_tokens_wf(s: Seq<char>, i: int)
    ensures
        forall|k: int|
            0 <= k < tokens_from(s, i).len() ==> frag_wf(#[trigger] tokens_from(s, i)[k]),
    decreases s.len() - i,
{
    match next_token_at(s, i) {
        None => {},
        Some(r) => {
            lemma_next_token_wf(s, i);
            lemma_next_token_bounds(s, i);
            lemma_tokens_wf(s, r.1);
            assert forall|k: int| 0 <= k < tokens_from(s, i).len() implies frag_wf(
                tokens_from(s, i)[k],
            ) by {
                if k == 0 {
                    assert(tokens_from(s, i)[k] == r.0);
                } else {
                    assert(tokens_from(s, i)[k] == tokens_from(s, r.1)[k - 1]);
                }
            }
        },
    }
}

pub proof fn lemma_push_fold_folded(acc: Seq<FragView>, f: FragView)
    requires
        frags_folded(acc),
        frag_wf(f),
    ensures
        frags_folded(push_fold(acc, f)),
{
    if acc.len() > 0 && acc.last().opts is None && f.opts is None {
        let merged = plain_view(acc.last().text + f.text);
        assert(frag_wf(acc.last()));
        assert(frag_wf(merged));
        let out = acc.drop_last().push(merged);
        assert forall|k: int| 0 <= k < out.len() implies frag_wf(out[k]) by {
            if k < out.len() - 1 {
                assert(out[k] == acc[k]);
            }
        }
    }
}

pub proof fn lemma_fold_folded(fs: Seq<FragView>)
    requires
        forall|k: int| 0 <= k < fs.len() ==> frag_wf(#[trigger] fs[k]),
    ensures
        frags_folded(fold_frags(fs)),
    decreases fs.len(),
{
    if fs.len() > 0 {
        assert forall|k: int| 0 <= k < fs.drop_last().len() implies frag_wf(
            fs.drop_last()[k],
        ) by {
            assert(fs.drop_last()[k] == fs[k]);
        }
        lemma_fold_folded(fs.drop_last());
        lemma_push_fold_folded(fold_frags(fs.drop_last()), fs.last());
    }
}

/// Every parse is well formed and folded: control names and options are
/// valid, options are pairwise distinct, plain fragments are nonempty, and
/// no two adjacent fragments are both plain — a control fragment never
/// merges with a neighbour, and consecutive plain-producing tokens always
/// end up merged into one fragment.
pub proof fn lemma_parse_folded(s: Seq<char>)
    ensures
        frags_folded(spec_parse(s)),
{
    lemma_tokens_wf(s, 0);
    lemma_fold_folded(tokens_from(s, 0));
}

pub proof fn lemma_push_fold_render(acc: Seq<FragView>, f: FragView)
    ensures
        render_frags(push_fold(acc, f)) == render_frags(acc) + render_frag(f),
{
    if acc.len() > 0 && acc.last().opts is None && f.opts is None {
        let merged = plain_view(acc.last().text + f.text);
        lemma_render_frags_push(acc.drop_last(), merged);
        assert(render_frags(acc) == render_frags(acc.drop_last()) + render_frag(acc.last()));
        assert((render_frags(acc.drop_last()) + acc.last().text) + f.text =~= render_frags(
            acc.drop_last(),
        ) + (acc.last().text + f.text));
    } else {
        lemma_render_frags_push(acc, f);
    }
}

/// Folding changes how plain text is grouped into fragments, never the
/// rendered text.
pub proof fn lemma_fold_preserves_render(fs: Seq<FragView>)
    ensures
        render_frags(fold_frags(fs)) == render_frags(fs),
    decreases fs.len(),
{
    if fs.len() > 0 {
        lemma_fold_preserves_render(fs.drop_last());
        lemma_push_fold_render(fold_frags(fs.drop_last()), fs.last());
    }
}

/// The control fragments of a fragment sequence, in order.
pub open spec fn controls_of(fs: Seq<FragView>) -> Seq<FragView>
    decreases fs.len(),
{
    if fs.len() == 0 {
        Seq::empty()
    } else if fs.last().opts is Some {
        controls_of(fs.drop_last()).push(fs.last())
    } else {
        controls_of(fs.drop_last())
    }
}

pub proof fn lemma_push_fold_controls(acc: Seq<FragView>, f: FragView)
    ensures
        controls_of(push_fold(acc, f)) == (if f.opts is Some {
            controls_of(acc).push(f)
        } else {
            controls_of(acc)
        }),
{
    if acc.len() > 0 && acc.last().opts is None && f.opts is None {
        let merged = plain_view(acc.last().text + f.text);
        let out = acc.drop_last().push(merged);
        assert(out.drop_last() =~= acc.drop_last());
    } else {
        assert(acc.push(f).drop_last() =~= acc);
    }
}

/// A control fragment never merges with a neighbour: folding keeps exactly
/// the control fragments of its input, in order; only plain fragments are
/// regrouped.
pub proof fn lemma_fold_preserves_controls(fs: Seq<FragView>)
    ensures
        controls_of(fold_frags(fs)) == controls_of(fs),
    decreases fs.len(),
{
    if fs.len() > 0 {
        lemma_fold_preserves_controls(fs.drop_last());
        lemma_push_fold_controls(fold_frags(fs.drop_last()), fs.last());
    }
}

/// A plain fragment is clean when its text holds none of the three markup
/// characters, so that rendering it verbatim re-parses as literal text.
pub open spec fn plain_clean(f: FragView) -> bool {
    f.opts is None ==> forall|k: int| 0 <= k < f.text.len() ==> !is_escapable(f.text[k])
}

pub proof fn lemma_dedup_identity(opts: Seq<Seq<char>>)
    requires
        forall|j1: int, j2: int| 0 <= j1 < j2 < opts.len() ==> opts[j1] != opts[j2],
    ensures
        dedup_opts(opts) == opts,
    decreases opts.len(),
{
    if opts.len() > 0 {
        let dl = opts.drop_last();
        assert forall|j1: int, j2: int| 0 <= j1 < j2 < dl.len() implies dl[j1] != dl[j2] by {
            assert(dl[j1] == opts[j1] && dl[j2] == opts[j2]);
        }
        lemma_dedup_identity(dl);
        if dl.contains(opts.last()) {
            let w = choose|w: int| 0 <= w < dl.len() && dl[w] == opts.last();
            assert(opts[w] == opts.last() && w < opts.len() - 1);
            assert(false);
        }
        assert(dl.push(opts.last()) =~= opts);
    }
}

pub proof fn lemma_join_first(opts: Seq<Seq<char>>)
    requires
        opts.len() >= 2,
    ensures
        join_opts(opts) == opts[0] + seq![','] + join_opts(opts.skip(1)),
    decreases opts.len(),
{
    let dl = opts.drop_last();
    let sk = opts.skip(1);
    if opts.len() == 2 {
        assert(dl =~= seq![opts[0]]);
        assert(sk =~= seq![opts[1]]);
        assert(join_opts(dl) == opts[0]);
        assert(join_opts(sk) == opts[1]);
    } else {
        lemma_join_first(dl);
        assert(sk.drop_last() =~= dl.skip(1));
        assert(sk.last() == opts.last());
        assert(join_opts(sk) == join_opts(dl.skip(1)) + seq![','] + opts.last());
        assert((dl[0] + seq![','] + join_opts(dl.skip(1))) + seq![','] + opts.last() =~= opts[0]
            + seq![','] + (join_opts(dl.skip(1)) + seq![','] + opts.last()));
    }
}

pub proof fn lemma_fold_identity(fs: Seq<FragView>)
    requires
        frags_folded(fs),
    ensures
        fold_frags(fs) == fs,
    decreases fs.len(),
{
    if fs.len() > 0 {
        let dl = fs.drop_last();
        assert forall|k: int| 0 <= k < dl.len() implies frag_wf(dl[k]) by {
            assert(dl[k] == fs[k]);
        }
        assert forall|k: int|
            0 <= k < dl.len() - 1 implies !((#[trigger] dl[k]).opts is None && dl[k
            + 1].opts is None) by {
            assert(dl[k] == fs[k] && dl[k + 1] == fs[k + 1]);
        }
        lemma_fold_identity(dl);
        if dl.len() > 0 && dl.last().opts is None && fs.last().opts is None {
            assert(dl.last() == fs[fs.len() - 2] && fs.last() == fs[fs.len() - 1]);
            assert(false);
        }
        assert(dl.push(fs.last()) =~= fs);
    }
}

pub proof fn lemma_render_frags_first(fs: Seq<FragView>)
    requires
        fs.len() >= 1,
    ensures
        render_frags(fs) == render_frag(fs[0]) + render_frags(fs.skip(1)),
    decreases fs.len(),
{
    let dl = fs.drop_last();
    let sk = fs.skip(1);
    if fs.len() == 1 {
        assert(dl =~= Seq::<FragView>::empty());
        assert(sk =~= Seq::<FragView>::empty());
        assert(Seq::<char>::empty() + render_frag(fs[0]) =~= render_frag(fs[0]) + Seq::<
            char,
        >::empty());
    } else {
        lemma_render_frags_first(dl);
        assert(sk.drop_last() =~= dl.skip(1));
        assert(sk.last() == fs.last());
        assert(render_frags(sk) == render_frags(dl.skip(1)) + render_frag(fs.last()));
        assert((render_frag(fs[0]) + render_frags(dl.skip(1))) + render_frag(fs.last())
            =~= render_frag(fs[0]) + (render_frags(dl.skip(1)) + render_frag(fs.last())));
    }
}

pub proof fn lemma_opts_reparse(s: Seq<char>, i: int, opts: Seq<Seq<char>>)
    requires
        opts.len() >= 1,
        forall|j: int| 0 <= j < opts.len() ==> opt_token_wf(#[trigger] opts[j]),
        0 <= i,
        i + join_opts(opts).len() < s.len(),
        s.subrange(i, i + join_opts(opts).len()) == join_opts(opts),
        is_name_stop(s[i + join_opts(opts).len()]),
        !is_sep(s[i + join_opts(opts).len()]),
    ensures
        parse_opts_at(s, i) == Some((opts, i + join_opts(opts).len())),
    decreases opts.len(),
{
    let jn = join_opts(opts);
    let jl = jn.len();
    assert forall|d: int| 0 <= d < jl implies s[i + d] == jn[d] by {
        assert(s.subrange(i, i + jl)[d] == s[i + d]);
    }
    let t0 = opts[0];
    assert(opt_token_wf(t0));
    if opts.len() == 1 {
        assert(jn == t0);
        assert forall|k: int| i <= k < i + t0.len() implies !is_name_stop(s[k]) by {
            assert(s[k] == jn[k - i]);
        }
        lemma_name_run_end_is(s, i, i + t0.len());
        assert(s.subrange(i, i + t0.len()) =~= t0);
        assert(seq![s.subrange(i, i + t0.len())] =~= opts);
    } else {
        lemma_join_first(opts);
        let sk = opts.skip(1);
        let j2 = join_opts(sk);
        assert forall|k: int| i <= k < i + t0.len() implies !is_name_stop(s[k]) by {
            assert(s[k] == jn[k - i]);
            assert(jn[k - i] == t0[k - i]);
        }
        assert(jn[t0.len() as int] == ',');
        assert(s[i + t0.len()] == ',');
        lemma_name_run_end_is(s, i, i + t0.len());
        let te = i + t0.len();
        assert(s.subrange(i, te) =~= t0);
        // The character after the lone separator is the first character of
        // the next token, which is not a separator.
        assert(sk[0] == opts[1]);
        if sk.len() >= 2 {
            lemma_join_first(sk);
        }
        assert(j2[0] == sk[0][0]);
        assert(jn[t0.len() as int + 1] == j2[0]);
        assert(s[te + 1] == j2[0]);
        assert(!is_name_stop(sk[0][0]));
        lemma_sep_run_end_is(s, te, te + 1);
        assert forall|j: int| 0 <= j < sk.len() implies opt_token_wf(#[trigger] sk[j]) by {
            assert(sk[j] == opts[j + 1]);
        }
        assert forall|d: int| 0 <= d < j2.len() implies s[te + 1 + d] == j2[d] by {
            assert(jn[t0.len() + 1 + d] == j2[d]);
        }
        assert(s.subrange(te + 1, te + 1 + j2.len()) =~= j2);
        assert(te + 1 + j2.len() == i + jl);
        lemma_opts_reparse(s, te + 1, sk);
        assert(seq![t0] + sk =~= opts);
    }
}

pub proof fn lemma_ctrl_reparse(s: Seq<char>, i: int, f: FragView)
    requires
        f.opts is Some,
        frag_wf(f),
        0 <= i,
        i + render_frag(f).len() <= s.len(),
        s.subrange(i, i + render_frag(f).len()) == render_frag(f),
    ensures
        next_token_at(s, i) == Some((f, i + render_frag(f).len())),
{
    let r = render_frag(f);
    let rl = r.len();
    let t = f.text;
    let tl = t.len() as int;
    let opts = f.opts->0;
    assert forall|d: int| 0 <= d < rl implies s[i + d] == r[d] by {
        assert(s.subrange(i, i + rl)[d] == s[i + d]);
    }
    assert(r[0] == '[');
    assert(s[i] == '[');
    assert forall|k: int| i + 1 <= k < i + 1 + tl implies !is_name_stop(s[k]) by {
        assert(s[k] == r[k - i]);
        assert(r[k - i] == t[k - i - 1]);
    }
    assert forall|d: int| 0 <= d < tl implies s.subrange(i + 1, i + 1 + tl)[d] == t[d] by {
        assert(s.subrange(i + 1, i + 1 + tl)[d] == s[i + 1 + d]);
        assert(s[i + 1 + d] == r[1 + d]);
        assert(r[1 + d] == t[d]);
    }
    if opts.len() == 0 {
        assert(r[1 + tl] == ']');
        assert(s[i + 1 + tl] == ']');
        lemma_name_run_end_is(s, i + 1, i + 1 + tl);
        assert(s.subrange(i + 1, i + 1 + tl) =~= t);
        assert(ctrl_view(s.subrange(i + 1, i + 1 + tl), dedup_opts(Seq::empty())) =~= f);
    } else {
        let jn = join_opts(opts);
        let jl = jn.len();
        assert(r[1 + tl] == '|');
        assert(s[i + 1 + tl] == '|');
        lemma_name_run_end_is(s, i + 1, i + 1 + tl);
        assert(s.subrange(i + 1, i + 1 + tl) =~= t);
        assert forall|d: int| 0 <= d < jl implies s[i + 2 + tl + d] == jn[d] by {
            assert(s[i + 2 + tl + d] == r[2 + tl + d]);
            assert(r[2 + tl + d] == jn[d]);
        }
        assert(s.subrange(i + 2 + tl, i + 2 + tl + jl) =~= jn);
        assert(r[2 + tl + jl] == ']');
        assert(s[i + 2 + tl + jl] == ']');
        lemma_opts_reparse(s, i + 2 + tl, opts);
        lemma_dedup_identity(opts);
        assert(ctrl_view(s.subrange(i + 1, i + 1 + tl), dedup_opts(opts)) =~= f);
        assert(i + 2 + tl + jl + 1 == i + rl);
    }
}

pub proof fn lemma_plain_reparse(s: Seq<char>, i: int, f: FragView)
    requires
        f.opts is None,
        frag_wf(f),
        plain_clean(f),
        0 <= i,
        i + f.text.len() <= s.len(),
        s.subrange(i, i + f.text.len()) == f.text,
        i + f.text.len() == s.len() || s[i + f.text.len()] == '[',
    ensures
        next_token_at(s, i) == Some((f, i + f.text.len())),
{
    let t = f.text;
    let tl = t.len() as int;
    assert forall|d: int| 0 <= d < tl implies s[i + d] == t[d] by {
        assert(s.subrange(i, i + tl)[d] == s[i + d]);
    }
    assert(s[i + 0] == t[0]);
    assert(!is_escapable(s[i]));
    assert forall|k: int| i <= k < i + tl implies !is_escapable(s[k]) by {
        assert(s[k] == t[k - i]);
    }
    lemma_text_run_end_is(s, i, i + tl);
    assert(s.subrange(i, i + tl) =~= t);
    assert(plain_view(s.subrange(i, text_run_end(s, i))) =~= f);
}

pub proof fn lemma_reparse_tokens_at(s: Seq<char>, i: int, fs: Seq<FragView>)
    requires
        frags_folded(fs),
        forall|k: int| 0 <= k < fs.len() ==> plain_clean(#[trigger] fs[k]),
        0 <= i <= s.len(),
        s.subrange(i, s.len() as int) == render_frags(fs),
    ensures
        tokens_from(s, i) == fs,
    decreases fs.len(),
{
    assert(s.len() - i == render_frags(fs).len());
    if fs.len() == 0 {
        assert(i == s.len());
        assert(tokens_from(s, i) =~= fs);
    } else {
        let f = fs[0];
        let sk = fs.skip(1);
        lemma_render_frags_first(fs);
        let rf = render_frag(f);
        let rl = rf.len() as int;
        assert forall|d: int| 0 <= d < s.len() - i implies s[i + d] == render_frags(fs)[d] by {
            assert(s.subrange(i, s.len() as int)[d] == s[i + d]);
        }
        assert forall|d: int| 0 <= d < rl implies s.subrange(i, i + rl)[d] == rf[d] by {
            assert(render_frags(fs)[d] == rf[d]);
        }
        assert(s.subrange(i, i + rl) =~= rf);
        assert(frag_wf(f));
        if f.opts is None {
            assert(rl == f.text.len());
            if fs.len() == 1 {
                assert(render_frags(sk) =~= Seq::<char>::empty()) by {
                    assert(sk =~= Seq::<FragView>::empty());
                }
                assert(i + rl == s.len());
            } else {
                assert(!(fs[0].opts is None && fs[1].opts is None));
                lemma_render_frags_first(sk);
                assert(sk[0] == fs[1]);
                assert(render_frag(fs[1])[0] == '[');
                assert(render_frags(sk)[0] == render_frag(fs[1])[0]);
                assert(s[i + rl] == render_frags(fs)[rl]);
                assert(render_frags(fs)[rl] == render_frags(sk)[0]);
            }
            lemma_plain_reparse(s, i, f);
        } else {
            lemma_ctrl_reparse(s, i, f);
        }
        assert(rl > 0);
        assert forall|k: int| 0 <= k < sk.len() implies frag_wf(#[trigger] sk[k])
            && plain_clean(sk[k]) by {
            assert(sk[k] == fs[k + 1]);
        }
        assert forall|k: int|
            0 <= k < sk.len() - 1 implies !((#[trigger] sk[k]).opts is None && sk[k
            + 1].opts is None) by {
            assert(sk[k] == fs[k + 1] && sk[k + 1] == fs[k + 2]);
        }
        assert forall|d: int| 0 <= d < s.len() - (i + rl) implies s.subrange(
            i + rl,
            s.len() as int,
        )[d] == render_frags(sk)[d] by {
            assert(s.subrange(i + rl, s.len() as int)[d] == s[i + rl + d]);
            assert(s[i + rl + d] == render_frags(fs)[rl + d]);
            assert(render_frags(fs)[rl + d] == render_frags(sk)[d]);
        }
        assert(s.subrange(i + rl, s.len() as int) =~= render_frags(sk));
        lemma_reparse_tokens_at(s, i + rl, sk);
        assert(seq![f] + sk =~= fs);
    }
}

/// Parsing the rendering of a well-formed, folded fragment sequence whose
/// plain fragments hold no markup characters gives back exactly that
/// sequence.
pub proof fn lemma_render_reparse(fs: Seq<FragView>)
    requires
        frags_folded(fs),
        forall|k: int| 0 <= k < fs.len() ==> plain_clean(#[trigger] fs[k]),
    ensures
        spec_parse(render_frags(fs)) == fs,
{
    let s = render_frags(fs);
    assert(s.subrange(0, s.len() as int) =~= s);
    lemma_reparse_tokens_at(s, 0, fs);
    lemma_fold_identity(fs);
}

/// Round-trip stability of a parse: when every plain fragment that parsing
/// produced is free of the three markup characters, re-parsing the rendered
/// sequence reproduces it exactly.
pub proof fn lemma_parse_render_roundtrip(s: Seq<char>)
    requires
        forall|k: int|
            0 <= k < spec_parse(s).len() ==> plain_clean(#[trigger] spec_parse(s)[k]),
    ensures
        spec_parse(render_frags(spec_parse(s))) == spec_parse(s),
{
    lemma_parse_folded(s);
    lemma_render_reparse(spec_parse(s));
}

} // verus!
