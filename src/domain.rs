//! Hierarchical domain-scope matching.

use vstd::prelude::*;
use crate::text::{
    chars_of, eq_ignore_case, lemma_split_on_len, pieces_view, slice_eq_ignore_case, split_chars,
    split_on,
};

verus! {

/// The text without one trailing dot, if it ends with one.
pub open spec fn strip_one_dot(s: Seq<char>) -> Seq<char> {
    if s.len() > 0 && s.last() == '.' {
        s.drop_last()
    } else {
        s
    }
}

/// The dot-separated labels of a text, left to right; never empty.
pub open spec fn split_dots(s: Seq<char>) -> Seq<Seq<char>> {
    split_on(s, '.')
}

/// The `i`-th label counted from the right (the top-level label is 0), or empty past the end.
pub open spec fn label_from_right(labels: Seq<Seq<char>>, i: int) -> Seq<char> {
    if 0 <= i < labels.len() {
        labels[labels.len() - 1 - i]
    } else {
        Seq::<char>::empty()
    }
}

/// Position `i` (from the right) does not refute the match.
pub open spec fn label_agrees(
    d: Seq<Seq<char>>,
    p: Seq<Seq<char>>,
    wildcard: bool,
    i: int,
) -> bool {
    &&& (wildcard || i < p.len())
    &&& (label_from_right(p, i).len() == 0 || eq_ignore_case(
        label_from_right(d, i),
        label_from_right(p, i),
    ))
}

/// `domain` equals `pattern`, or is a subdomain of it when `pattern` starts with a dot.
pub open spec fn within_domain(domain: Seq<char>, pattern: Seq<char>) -> bool {
    if pattern.len() == 0 {
        false
    } else if pattern == seq!['.'] {
        true
    } else {
        let d = split_dots(strip_one_dot(domain));
        let p = split_dots(strip_one_dot(pattern));
        let w = pattern[0] == '.';
        let n = if d.len() >= p.len() {
            d.len()
        } else {
            p.len()
        };
        forall|i: int| 0 <= i < n ==> #[trigger] label_agrees(d, p, w, i)
    }
}

proof fn lemma_refuted(domain: Seq<char>, pattern: Seq<char>, i: int)
    requires
        pattern.len() > 0,
        pattern != seq!['.'],
        0 <= i,
        i < split_dots(strip_one_dot(domain)).len() || i < split_dots(strip_one_dot(pattern)).len(),
        !label_agrees(
            split_dots(strip_one_dot(domain)),
            split_dots(strip_one_dot(pattern)),
            pattern[0] == '.',
            i,
        ),
    ensures
        !within_domain(domain, pattern),
{
}

/// Labels of the text with one trailing dot removed.
fn domain_labels(s: &str) -> (r: Vec<Vec<char>>)
    ensures
        pieces_view(r@) == split_dots(strip_one_dot(s@)),
        r@.len() >= 1,
{
    let cs = chars_of(s);
    let n: usize = if cs.len() > 0 && cs[cs.len() - 1] == '.' {
        cs.len() - 1
    } else {
        cs.len()
    };
    proof {
        if cs@.len() > 0 && cs@.last() == '.' {
            assert(cs@.take(n as int) =~= cs@.drop_last());
        } else {
            assert(cs@.take(n as int) =~= cs@);
        }
        lemma_split_on_len(strip_one_dot(s@), '.');
    }
    split_chars(cs.as_slice(), n, '.')
}

/// Whether `domain` lies within the scope of `domain_to_match_against`.
///
/// An empty pattern matches nothing and `"."` matches everything. Otherwise both texts lose one
/// trailing dot, are split into labels and compared label by label from the top-level label,
/// ignoring ASCII case. A pattern with a leading dot also admits extra leading labels on the
/// domain side; any other pattern must match label for label.
pub fn domain_is_within_domain(domain: &str, domain_to_match_against: &str) -> (r: bool)
    ensures
        r == within_domain(domain@, domain_to_match_against@),
{
    let pattern = chars_of(domain_to_match_against);
    if pattern.len() == 0 {
        return false;
    }
    if pattern.len() == 1 && pattern[0] == '.' {
        proof {
            assert(domain_to_match_against@ =~= seq!['.']);
        }
        return true;
    }
    proof {
        assert(domain_to_match_against@ != seq!['.']) by {
            if domain_to_match_against@ == seq!['.'] {
                assert(domain_to_match_against@.len() == 1);
            }
        }
    }
    let wildcard = pattern[0] == '.';
    let d = domain_labels(domain);
    let p = domain_labels(domain_to_match_against);
    let ghost dv = pieces_view(d@);
    let ghost pv = pieces_view(p@);
    let l: usize = if d.len() >= p.len() {
        d.len()
    } else {
        p.len()
    };
    let mut i: usize = 0;
    while i < l
        invariant
            dv == pieces_view(d@),
            pv == pieces_view(p@),
            dv.len() == d.len(),
            pv.len() == p.len(),
            dv == split_dots(strip_one_dot(domain@)),
            pv == split_dots(strip_one_dot(domain_to_match_against@)),
            domain_to_match_against@.len() > 0,
            domain_to_match_against@ != seq!['.'],
            wildcard == (domain_to_match_against@[0] == '.'),
            l == (if d.len() >= p.len() {
                d.len()
            } else {
                p.len()
            }),
            i <= l,
            forall|j: int| 0 <= j < i ==> #[trigger] label_agrees(dv, pv, wildcard, j),
        decreases l - i,
    {
        if !wildcard && p.len() < i + 1 {
            assert(!label_agrees(dv, pv, wildcard, i as int));
            return false;
        }
        let empty: Vec<char> = Vec::new();
        let dl: &Vec<char> = if d.len() < i + 1 {
            &empty
        } else {
            &d[d.len() - 1 - i]
        };
        let pl: &Vec<char> = if p.len() < i + 1 {
            &empty
        } else {
            &p[p.len() - 1 - i]
        };
        assert(dl@ == label_from_right(dv, i as int));
        assert(pl@ == label_from_right(pv, i as int));
        let parts_match = slice_eq_ignore_case(dl.as_slice(), pl.as_slice());
        if !parts_match && pl.len() != 0 {
            proof {
                lemma_refuted(domain@, domain_to_match_against@, i as int);
            }
            return false;
        }
        assert(label_agrees(dv, pv, wildcard, i as int));
        i += 1;
    }
    true
}

} // verus!
