//! The template container: an ordered sequence of fragments, built by the
//! parser from a source string and rendered back to text by concatenating
//! each fragment's canonical form.

use vstd::prelude::*;
use vstd::string::*;

use crate::fragment::{frags_view, render_frag, FragView, PromptFragment};
use crate::parser::{parse_markup, spec_parse};

verus! {

/// Rendering of a fragment sequence: each fragment's canonical form,
/// concatenated in order with no separators.
pub open spec fn render_frags(fs: Seq<FragView>) -> Seq<char>
    decreases fs.len(),
{
    if fs.len() == 0 {
        Seq::empty()
    } else {
        render_frags(fs.drop_last()) + render_frag(fs.last())
    }
}

pub proof fn lemma_render_frags_push(fs: Seq<FragView>, f: FragView)
    ensures
        render_frags(fs.push(f)) == render_frags(fs) + render_frag(f),
{
    assert(fs.push(f).drop_last() =~= fs);
}

/// An ordered, renderable sequence of fragments produced from one source
/// text (or supplied directly by the caller).
#[derive(Debug, Clone)]
pub struct PromptTemplate {
    /// The fragments of the processed template.
    pub fragments: Vec<PromptFragment>,
}

impl PromptTemplate {
    /// A template parsed from `template`; empty when `template` is `None`.
    pub fn new(template: Option<&str>) -> (r: Self)
        ensures
            frags_view(r.fragments@) == (match template {
                None => Seq::<FragView>::empty(),
                Some(t) => spec_parse(t@),
            }),
    {
        let fragments = match template {
            None => Vec::new(),
            Some(t) => parse_markup(t),
        };
        proof {
            if template is None {
                assert(frags_view(fragments@) =~= Seq::<FragView>::empty());
            }
        }
        PromptTemplate { fragments }
    }

    /// Parses a template source into its fragment sequence.
    pub fn parse(template: &str) -> (r: Vec<PromptFragment>)
        ensures
            frags_view(r@) == spec_parse(template@),
    {
        parse_markup(template)
    }

    /// The number of fragments.
    pub fn len(&self) -> (r: usize)
        ensures
            r == self.fragments@.len(),
    {
        self.fragments.len()
    }

    /// The fragment at `idx`.
    pub fn get(&self, idx: usize) -> (r: &PromptFragment)
        requires
            idx < self.fragments@.len(),
        ensures
            *r == self.fragments@[idx as int],
    {
        &self.fragments[idx]
    }

    /// The rendered text of the whole template: the canonical forms of its
    /// fragments, concatenated in order.
    pub fn display(&self) -> (r: String)
        ensures
            r@ == render_frags(frags_view(self.fragments@)),
    {
        let ghost fv = frags_view(self.fragments@);
        let mut out = String::new();
        let mut k: usize = 0;
        proof {
            assert(fv.take(0) =~= Seq::<FragView>::empty());
        }
        while k < self.fragments.len()
            invariant
                0 <= k <= fv.len(),
                fv == frags_view(self.fragments@),
                fv.len() == self.fragments@.len(),
                out@ == render_frags(fv.take(k as int)),
            decreases fv.len() - k,
        {
            let d = self.fragments[k].display();
            out.append(d.as_str());
            proof {
                assert(fv.take(k as int + 1).drop_last() =~= fv.take(k as int));
                assert(fv.take(k as int + 1).last() == fv[k as int]);
                assert(fv[k as int] == self.fragments@[k as int]@);
            }
            k += 1;
        }
        proof {
            assert(fv.take(fv.len() as int) =~= fv);
        }
        out
    }
}

impl PartialEq for PromptTemplate {
    /// Two templates are equal exactly when their rendered texts are.
    fn eq(&self, other: &Self) -> (r: bool) {
        self.display() == other.display()
    }
}

impl vstd::std_specs::cmp::PartialEqSpecImpl for PromptTemplate {
    open spec fn obeys_eq_spec() -> bool {
        true
    }

    open spec fn eq_spec(&self, other: &Self) -> bool {
        render_frags(frags_view(self.fragments@)) == render_frags(frags_view(other.fragments@))
    }
}

} // verus!
