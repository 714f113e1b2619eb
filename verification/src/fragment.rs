//! The fragment data model: a parsed unit is either literal text or a named
//! control placeholder carrying a deduplicated set of options, and every
//! fragment renders back to a canonical textual form.

use vstd::prelude::*;
use vstd::string::*;

verus! {

/// Mathematical value of a fragment: its text (literal content for plain
/// fragments, the control name for control fragments) and, for control
/// fragments only, the option strings in rendering order.
#[verifier::ext_equal]
pub struct FragView {
    pub text: Seq<char>,
    pub opts: Option<Seq<Seq<char>>>,
}

/// A plain-text fragment value.
pub open spec fn plain_view(text: Seq<char>) -> FragView {
    FragView { text, opts: None }
}

/// A control fragment value with the given name and options.
pub open spec fn ctrl_view(text: Seq<char>, opts: Seq<Seq<char>>) -> FragView {
    FragView { text, opts: Some(opts) }
}

/// The views of a sequence of owned strings.
pub open spec fn strings_view(s: Seq<String>) -> Seq<Seq<char>> {
    Seq::new(s.len(), |i: int| s[i]@)
}

/// The views of a sequence of string slices.
pub open spec fn str_slices_view(s: Seq<&str>) -> Seq<Seq<char>> {
    Seq::new(s.len(), |i: int| s[i]@)
}

/// The views of a sequence of fragments.
pub open spec fn frags_view(v: Seq<PromptFragment>) -> Seq<FragView> {
    Seq::new(v.len(), |i: int| v[i]@)
}

/// Deduplication keeping the first occurrence of each option: the result
/// lists the distinct elements of `opts` in order of first appearance.
pub open spec fn dedup_opts(opts: Seq<Seq<char>>) -> Seq<Seq<char>>
    decreases opts.len(),
{
    if opts.len() == 0 {
        Seq::empty()
    } else {
        let pre = dedup_opts(opts.drop_last());
        if pre.contains(opts.last()) {
            pre
        } else {
            pre.push(opts.last())
        }
    }
}

/// Options joined by `,` for rendering: `o1,o2,...,on`.
pub open spec fn join_opts(opts: Seq<Seq<char>>) -> Seq<char>
    decreases opts.len(),
{
    if opts.len() == 0 {
        Seq::empty()
    } else if opts.len() == 1 {
        opts[0]
    } else {
        join_opts(opts.drop_last()) + seq![','] + opts.last()
    }
}

/// Canonical rendering of one fragment: plain text verbatim; `[name]` for a
/// control fragment without options; `[name|o1,o2]` for one with options.
pub open spec fn render_frag(f: FragView) -> Seq<char> {
    match f.opts {
        None => f.text,
        Some(opts) => {
            if opts.len() == 0 {
                seq!['['] + f.text + seq![']']
            } else {
                seq!['['] + f.text + seq!['|'] + join_opts(opts) + seq![']']
            }
        },
    }
}

/// One parsed unit of a template.  `options == None` marks a plain text
/// fragment whose `string` is emitted verbatim; `options == Some(v)` marks a
/// control fragment named `string` with option set `v` (deduplicated, kept in
/// first-occurrence order).
#[derive(Debug, Clone)]
pub struct PromptFragment {
    /// The literal content (plain fragment) or the control name.
    pub string: String,
    /// The options of a control fragment; `None` for a plain fragment.
    pub options: Option<Vec<String>>,
}

impl View for PromptFragment {
    type V = FragView;

    open spec fn view(&self) -> FragView {
        FragView {
            text: self.string@,
            opts: match self.options {
                None => None,
                Some(v) => Some(strings_view(v@)),
            },
        }
    }
}

/// Relies on `String::push`: appends the given character to the end of the
/// string, as its documentation states.
pub assume_specification[ String::push ](s: &mut String, ch: char)
    ensures
        final(s)@ == old(s)@.push(ch),
;

pub proof fn lemma_join_step(opts: Seq<Seq<char>>, k: int)
    requires
        1 <= k < opts.len(),
    ensures
        join_opts(opts.take(k + 1)) == join_opts(opts.take(k)) + seq![','] + opts[k],
{
    assert(opts.take(k + 1).drop_last() =~= opts.take(k));
    assert(opts.take(k + 1).last() == opts[k]);
}

pub proof fn lemma_dedup_push(opts: Seq<Seq<char>>, x: Seq<char>)
    ensures
        dedup_opts(opts.push(x)) == (if dedup_opts(opts).contains(x) {
            dedup_opts(opts)
        } else {
            dedup_opts(opts).push(x)
        }),
{
    assert(opts.push(x).drop_last() =~= opts);
}

/// Whether some element of `v` holds the same characters as `s`.
pub(crate) fn contains_str(v: &Vec<String>, s: &String) -> (r: bool)
    ensures
        r == strings_view(v@).contains(s@),
{
    let mut k: usize = 0;
    while k < v.len()
        invariant
            0 <= k <= v@.len(),
            forall|j: int| 0 <= j < k ==> v@[j]@ != s@,
        decreases v@.len() - k,
    {
        if v[k] == *s {
            proof {
                assert(strings_view(v@)[k as int] == s@);
            }
            return true;
        }
        k += 1;
    }
    proof {
        assert(forall|j: int| 0 <= j < strings_view(v@).len() ==> strings_view(v@)[j] != s@);
    }
    false
}

/// Appends `s` to `v` unless an equal string is already present.
pub(crate) fn push_unique(v: &mut Vec<String>, s: String)
    ensures
        strings_view(final(v)@) == (if strings_view(old(v)@).contains(s@) {
            strings_view(old(v)@)
        } else {
            strings_view(old(v)@).push(s@)
        }),
{
    let ghost sv = s@;
    if !contains_str(v, &s) {
        v.push(s);
        proof {
            assert(strings_view(v@) =~= strings_view(old(v)@).push(sv));
        }
    }
}

impl PromptFragment {
    /// A fragment with the given fields, plain when `options` is `None`.
    pub fn new(string: Option<&str>, options: Option<Vec<String>>) -> (r: Self)
        ensures
            r.string@ == (match string {
                None => Seq::<char>::empty(),
                Some(s) => s@,
            }),
            r.options == options,
    {
        let string = match string {
            None => String::new(),
            Some(s) => s.to_owned(),
        };
        PromptFragment { string, options }
    }

    /// A plain fragment holding one character.
    pub fn char(value: char) -> (r: Self)
        ensures
            r@ == plain_view(seq![value]),
    {
        let mut s = String::new();
        s.push(value);
        proof {
            assert(s@ =~= seq![value]);
        }
        PromptFragment { string: s, options: None }
    }

    /// A plain fragment holding the given literal text.
    pub fn string(value: &str) -> (r: Self)
        ensures
            r@ == plain_view(value@),
    {
        PromptFragment { string: value.to_owned(), options: None }
    }

    /// A control fragment from a name and an optional list of option
    /// strings; the list is deduplicated, keeping first occurrences.
    pub fn control(value: (&str, Option<Vec<&str>>)) -> (r: Self)
        ensures
            r@ == ctrl_view(
                value.0@,
                match value.1 {
                    None => Seq::<Seq<char>>::empty(),
                    Some(v) => dedup_opts(str_slices_view(v@)),
                },
            ),
    {
        let (name, opts) = value;
        let mut list: Vec<String> = Vec::new();
        proof {
            assert(strings_view(list@) =~= Seq::<Seq<char>>::empty());
        }
        match opts {
            None => {},
            Some(items) => {
                let mut k: usize = 0;
                while k < items.len()
                    invariant
                        0 <= k <= items@.len(),
                        strings_view(list@) == dedup_opts(str_slices_view(items@.take(k as int))),
                    decreases items@.len() - k,
                {
                    let ghost pre = str_slices_view(items@.take(k as int));
                    let item: &str = items[k];
                    push_unique(&mut list, item.to_owned());
                    proof {
                        lemma_dedup_push(pre, item@);
                        assert(str_slices_view(items@.take(k as int + 1)) =~= pre.push(item@));
                    }
                    k += 1;
                }
                proof {
                    assert(items@.take(k as int) =~= items@);
                }
            },
        }
        PromptFragment { string: name.to_owned(), options: Some(list) }
    }

    /// Parses a template source into its fragment sequence.
    pub fn parse(template: &str) -> (r: Vec<PromptFragment>)
        ensures
            frags_view(r@) == crate::parser::spec_parse(template@),
    {
        crate::parser::parse_markup(template)
    }

    /// The canonical text form of this fragment.
    pub fn display(&self) -> (r: String)
        ensures
            r@ == render_frag(self@),
    {
        match &self.options {
            None => self.string.clone(),
            Some(opts) => {
                let ghost ov = strings_view(opts@);
                let mut r = String::from_str("[");
                proof {
                    reveal_strlit("[");
                    assert(r@ =~= seq!['[']);
                }
                r.append(self.string.as_str());
                if opts.len() > 0 {
                    r.append("|");
                    proof {
                        reveal_strlit("|");
                        assert(r@ =~= seq!['['] + self.string@ + seq!['|']);
                    }
                    r.append(opts[0].as_str());
                    proof {
                        assert(ov.take(1) =~= seq![ov[0]]);
                        assert(r@ =~= seq!['['] + self.string@ + seq!['|'] + join_opts(ov.take(1)));
                    }
                    let mut k: usize = 1;
                    while k < opts.len()
                        invariant
                            1 <= k <= ov.len(),
                            ov == strings_view(opts@),
                            r@ == seq!['['] + self.string@ + seq!['|'] + join_opts(
                                ov.take(k as int),
                            ),
                        decreases ov.len() - k,
                    {
                        r.append(",");
                        r.append(opts[k].as_str());
                        proof {
                            reveal_strlit(",");
                            lemma_join_step(ov, k as int);
                            assert(","@ =~= seq![',']);
                            assert(r@ =~= seq!['['] + self.string@ + seq!['|'] + join_opts(
                                ov.take(k as int + 1),
                            ));
                        }
                        k += 1;
                    }
                    proof {
                        assert(ov.take(ov.len() as int) =~= ov);
                    }
                }
                r.append("]");
                proof {
                    reveal_strlit("]");
                    assert(r@ =~= render_frag(self@));
                }
                r
            },
        }
    }
}

impl PartialEq for PromptFragment {
    /// Two fragments are equal exactly when their canonical renderings are.
    fn eq(&self, other: &Self) -> (r: bool) {
        self.display() == other.display()
    }
}

impl vstd::std_specs::cmp::PartialEqSpecImpl for PromptFragment {
    open spec fn obeys_eq_spec() -> bool {
        true
    }

    open spec fn eq_spec(&self, other: &Self) -> bool {
        render_frag(self@) == render_frag(other@)
    }
}

} // verus!
