use vstd::prelude::*;

verus! {

/// The items of `s` whose entry in `mask` is `false`, in their order.
pub open spec fn unmasked<T>(s: Seq<T>, mask: Seq<bool>) -> Seq<T>
    decreases s.len(),
{
    if s.len() == 0 {
        s
    } else {
        let rest = unmasked(s.drop_last(), mask.drop_last());
        if mask.last() {
            rest
        } else {
            rest.push(s.last())
        }
    }
}

/// Removes from `vec`, in place and keeping the order of the rest, every item for
/// which `some_predicate` answers `true`. The predicate is asked once per item, in order.
pub fn drain_filter<T, F: Fn(&T) -> bool>(vec: &mut Vec<T>, some_predicate: F)
    requires
        forall|i: int| 0 <= i < old(vec)@.len() ==> some_predicate.requires((&old(vec)@[i],)),
    ensures
        exists|mask: Seq<bool>|
            #![trigger unmasked(old(vec)@, mask)]
            {
                &&& mask.len() == old(vec)@.len()
                &&& forall|i: int| 0 <= i < mask.len() ==> some_predicate.ensures((&old(vec)@[i],), #[trigger] mask[i])
                &&& final(vec)@ == unmasked(old(vec)@, mask)
            },
{
    let ghost orig = vec@;
    let ghost mut mask: Seq<bool> = Seq::empty();
    let mut i: usize = 0;
    while i < vec.len()
        invariant
            forall|k: int| 0 <= k < orig.len() ==> some_predicate.requires((&orig[k],)),
            mask.len() <= orig.len(),
            i <= vec@.len(),
            i == unmasked(orig.take(mask.len() as int), mask).len(),
            vec@ == unmasked(orig.take(mask.len() as int), mask) + orig.skip(mask.len() as int),
            forall|k: int| 0 <= k < mask.len() ==> some_predicate.ensures((&orig[k],), #[trigger] mask[k]),
        decreases vec@.len() - i,
    {
        let ghost m = mask.len() as int;
        assert(vec@[i as int] == orig[m]);
        let remove = some_predicate(&vec[i]);
        proof {
            let om = mask;
            let before = unmasked(orig.take(m), om);
            mask = mask.push(remove);
            assert(orig.take(m + 1).drop_last() =~= orig.take(m));
            assert(mask.drop_last() =~= om);
            assert(orig.take(m + 1).last() == orig[m]);
            assert(mask.last() == remove);
            assert(unmasked(orig.take(m + 1), mask) == if remove { before } else { before.push(orig[m]) });
        }
        if remove {
            vec.remove(i);
            proof {
                assert(vec@ =~= unmasked(orig.take(mask.len() as int), mask) + orig.skip(mask.len() as int));
            }
        } else {
            i = i + 1;
            proof {
                assert(vec@ =~= unmasked(orig.take(mask.len() as int), mask) + orig.skip(mask.len() as int));
            }
        }
    }
    proof {
        assert(orig.take(mask.len() as int) =~= orig);
        assert(vec@ =~= unmasked(orig, mask));
    }
}

/// Whether `s` names the style type of the theme.
pub fn is_style(s: &str) -> (r: bool)
    ensures
        r == (s@ == "Style"@ || s@ == "rooibos_theme::Style"@ || s@ == "ratatui::style::Style"@),
{
    let s = s.to_owned();
    s == "Style".to_owned() || s == "rooibos_theme::Style".to_owned() || s == "ratatui::style::Style".to_owned()
}

/// Whether `s` names the color type of the theme.
pub fn is_color(s: &str) -> (r: bool)
    ensures
        r == (s@ == "Color"@ || s@ == "rooibos_theme::Color"@ || s@ == "ratatui::style::Color"@),
{
    let s = s.to_owned();
    s == "Color".to_owned() || s == "rooibos_theme::Color".to_owned() || s == "ratatui::style::Color".to_owned()
}

} // verus!
