//! Grouping outputs that show the same image at the same size: they need the same
//! frames, so one computation serves the whole group.
use vstd::prelude::*;

use crate::outputs::{contains_text, find_background, Background, BackgroundView};
use crate::outputs::{distinct_names, names};

verus! {

/// `list` without the items of `removed`.
pub open spec fn without(list: Seq<Seq<char>>, removed: Seq<Seq<char>>) -> Seq<Seq<char>> {
    list.filter(|item: Seq<char>| !removed.contains(item))
}

/// Two backgrounds have the same dimensions and the same image.
pub open spec fn alike(a: BackgroundView, b: BackgroundView) -> bool {
    a.dimensions == b.dimensions && a.img == b.img
}

/// The first background of the output called `name`.
pub open spec fn background_of(bgs: Seq<BackgroundView>, name: Seq<char>) -> BackgroundView {
    bgs[names(bgs).index_of_first(name)->0]
}

/// The outputs among `rest` whose background is like `lead`, in the order of the
/// backgrounds.
pub open spec fn companions(
    bgs: Seq<BackgroundView>,
    rest: Seq<Seq<char>>,
    lead: BackgroundView,
) -> Seq<Seq<char>> {
    names(bgs.filter(|bg: BackgroundView| rest.contains(bg.name) && alike(bg, lead)))
}

/// The group of the last of `outputs`: that output, then its companions.
pub open spec fn next_group(bgs: Seq<BackgroundView>, outputs: Seq<Seq<char>>) -> Seq<Seq<char>> {
    seq![outputs.last()] + companions(
        bgs,
        outputs.drop_last(),
        background_of(bgs, outputs.last()),
    )
}

/// All groups: that of the last output, then those of the outputs outside it.
pub open spec fn output_groups(
    bgs: Seq<BackgroundView>,
    outputs: Seq<Seq<char>>,
) -> Seq<Seq<Seq<char>>>
    decreases outputs.len(),
{
    if outputs.len() == 0 {
        Seq::empty()
    } else {
        let group = next_group(bgs, outputs);
        proof {
            outputs.drop_last().lemma_filter_len(|item: Seq<char>| !group.contains(item));
        }
        seq![group] + output_groups(bgs, without(outputs.drop_last(), group))
    }
}

/// Every output has a background.
pub open spec fn all_known(bgs: Seq<BackgroundView>, outputs: Seq<Seq<char>>) -> bool {
    forall|o: Seq<char>| #[trigger] outputs.contains(o) ==> names(bgs).contains(o)
}

/// Drops the texts of `removed` from `list`.
pub fn remove_texts(list: &Vec<String>, removed: &Vec<String>) -> (r: Vec<String>)
    ensures
        r.deep_view() == without(list.deep_view(), removed.deep_view()),
{
    let ghost keep = |item: Seq<char>| !removed.deep_view().contains(item);
    let mut r: Vec<String> = Vec::with_capacity(list.len());
    let mut i: usize = 0;
    proof {
        reveal(Seq::filter);
        assert(r.deep_view() =~= list.deep_view().take(0).filter(keep));
    }
    while i < list.len()
        invariant
            i <= list.len(),
            keep == (|item: Seq<char>| !removed.deep_view().contains(item)),
            r.deep_view() == list.deep_view().take(i as int).filter(keep),
        decreases list.len() - i,
    {
        let ghost before = r.deep_view();
        proof {
            reveal(Seq::filter);
            assert(list.deep_view().take(i + 1).drop_last() =~= list.deep_view().take(i as int));
            assert(list.deep_view().take(i + 1).last() == list@[i as int]@);
        }
        if !contains_text(removed, &list[i]) {
            r.push(list[i].clone());
            assert(r.deep_view() =~= before.push(list@[i as int]@));
        }
        i = i + 1;
    }
    assert(list.deep_view().take(list.len() as int) =~= list.deep_view());
    r
}

fn same_bytes(a: &Vec<u8>, b: &Vec<u8>) -> (r: bool)
    ensures
        r == (a@ == b@),
{
    if a.len() != b.len() {
        return false;
    }
    let mut i: usize = 0;
    while i < a.len()
        invariant
            i <= a.len(),
            a.len() == b.len(),
            forall|j: int| 0 <= j < i ==> #[trigger] a@[j] == b@[j],
        decreases a.len() - i,
    {
        if a[i] != b[i] {
            return false;
        }
        i = i + 1;
    }
    assert(a@ =~= b@);
    true
}

fn same_image(a: &Background, b: &Background) -> (r: bool)
    ensures
        r == (a.deep_view().img == b.deep_view().img),
{
    match (&a.img, &b.img) {
        (Some(x), Some(y)) => same_bytes(x, y),
        (None, None) => true,
        _ => false,
    }
}

fn same_group(a: &Background, b: &Background) -> (r: bool)
    ensures
        r == alike(a.deep_view(), b.deep_view()),
{
    a.dimensions.0 == b.dimensions.0 && a.dimensions.1 == b.dimensions.1 && same_image(a, b)
}

fn take_group(bgs: &Vec<Background>, lead: String, rest: &Vec<String>) -> (r: Vec<String>)
    requires
        names(bgs.deep_view()).contains(lead@),
    ensures
        r.deep_view() == seq![lead@] + companions(
            bgs.deep_view(),
            rest.deep_view(),
            background_of(bgs.deep_view(), lead@),
        ),
{
    let found = find_background(bgs, &lead);
    proof {
        names(bgs.deep_view()).index_of_first_ensures(lead@);
    }
    let at: usize = found.unwrap();
    let ghost views = bgs.deep_view();
    let ghost like = |bg: BackgroundView|
        rest.deep_view().contains(bg.name) && alike(bg, views[at as int]);
    let ghost head = lead@;
    let mut group: Vec<String> = Vec::with_capacity(rest.len());
    group.push(lead);
    let mut i: usize = 0;
    proof {
        reveal(Seq::filter);
        assert(group.deep_view() =~= seq![head] + names(views.take(0).filter(like)));
    }
    while i < bgs.len()
        invariant
            i <= bgs.len(),
            at < bgs.len(),
            views == bgs.deep_view(),
            like == (|bg: BackgroundView|
                rest.deep_view().contains(bg.name) && alike(bg, views[at as int])),
            group.deep_view() == seq![head] + names(views.take(i as int).filter(like)),
        decreases bgs.len() - i,
    {
        let ghost before = group.deep_view();
        let ghost kept = views.take(i as int).filter(like);
        proof {
            reveal(Seq::filter);
            assert(views.take(i + 1).drop_last() =~= views.take(i as int));
            assert(views.take(i + 1).last() == bgs@[i as int].deep_view());
        }
        if contains_text(rest, &bgs[i].output_name) && same_group(&bgs[i], &bgs[at]) {
            group.push(bgs[i].output_name.clone());
            assert(group.deep_view() =~= before.push(views[i as int].name));
            assert(names(kept.push(views[i as int])) =~= names(kept).push(views[i as int].name));
            assert(group.deep_view() =~= seq![head] + names(kept.push(views[i as int])));
        }
        i = i + 1;
    }
    assert(views.take(bgs.len() as int) =~= views);
    group
}

/// Splits `outputs` into groups of outputs with the same dimensions and image.
pub fn get_outputs_groups(bgs: &Vec<Background>, outputs: Vec<String>) -> (r: Vec<Vec<String>>)
    requires
        all_known(bgs.deep_view(), outputs.deep_view()),
    ensures
        r.deep_view() == output_groups(bgs.deep_view(), outputs.deep_view()),
{
    let ghost views = bgs.deep_view();
    let ghost all = outputs.deep_view();
    let mut groups: Vec<Vec<String>> = Vec::new();
    let mut rest: Vec<String> = outputs;
    assert(groups.deep_view() + output_groups(views, all) =~= output_groups(views, all));
    while !rest.is_empty()
        invariant
            views == bgs.deep_view(),
            all_known(views, rest.deep_view()),
            groups.deep_view() + output_groups(views, rest.deep_view()) == output_groups(
                views,
                all,
            ),
        decreases rest.len(),
    {
        let ghost before = rest.deep_view();
        let ghost done = groups.deep_view();
        assert(before.contains(before[before.len() - 1]));
        let lead = rest.pop().unwrap();
        assert(rest.deep_view() =~= before.drop_last());
        let group = take_group(bgs, lead, &rest);
        let ghost taken = group.deep_view();
        let left = remove_texts(&rest, &group);
        proof {
            let keep = |item: Seq<char>| !taken.contains(item);
            before.drop_last().lemma_filter_len(keep);
            assert forall|o: Seq<char>| #[trigger]
                left.deep_view().contains(o) implies names(views).contains(o) by {
                before.drop_last().lemma_filter_contains_rev(keep, o);
                let j = choose|j: int|
                    0 <= j < before.drop_last().len() && before.drop_last()[j] == o;
                assert(before[j] == o);
                assert(before.contains(o));
            }
        }
        rest = left;
        groups.push(group);
        proof {
            assert(groups.deep_view() =~= done.push(taken));
            assert(done + (seq![taken] + output_groups(views, rest.deep_view())) =~= done.push(
                taken,
            ) + output_groups(views, rest.deep_view()));
        }
    }
    assert(groups.deep_view() + output_groups(views, rest.deep_view()) =~= groups.deep_view());
    groups
}

/// Removing items leaves exactly the others, and repeats none.
pub proof fn without_members(list: Seq<Seq<char>>, removed: Seq<Seq<char>>)
    ensures
        forall|o: Seq<char>| #[trigger]
            without(list, removed).contains(o) <==> list.contains(o) && !removed.contains(o),
        without(list, removed).len() <= list.len(),
        list.no_duplicates() ==> without(list, removed).no_duplicates(),
    decreases list.len(),
{
    let keep = |item: Seq<char>| !removed.contains(item);
    list.lemma_filter_len(keep);
    assert forall|o: Seq<char>| #[trigger] without(list, removed).contains(o) <==> list.contains(o)
        && !removed.contains(o) by {
        if without(list, removed).contains(o) {
            let j = choose|j: int|
                0 <= j < without(list, removed).len() && without(list, removed)[j] == o;
            list.lemma_filter_pred(keep, j);
            list.lemma_filter_contains_rev(keep, o);
        }
        if list.contains(o) && !removed.contains(o) {
            let j = choose|j: int| 0 <= j < list.len() && list[j] == o;
            list.lemma_filter_contains(keep, j);
        }
    }
    if list.no_duplicates() && list.len() > 0 {
        let front = list.drop_last();
        without_members(front, removed);
        reveal(Seq::filter);
        assert(without(list, removed) =~= if keep(list.last()) {
            without(front, removed).push(list.last())
        } else {
            without(front, removed)
        });
        assert(!front.contains(list.last()));
        assert(!without(front, removed).contains(list.last()));
    } else if list.len() == 0 {
        assert(without(list, removed).len() == 0);
    }
}

proof fn companions_members(
    bgs: Seq<BackgroundView>,
    rest: Seq<Seq<char>>,
    lead: BackgroundView,
)
    ensures
        forall|o: Seq<char>| #[trigger]
            companions(bgs, rest, lead).contains(o) <==> rest.contains(o) && exists|i: int|
                0 <= i < bgs.len() && (#[trigger] bgs[i]).name == o && alike(bgs[i], lead),
        distinct_names(bgs) ==> companions(bgs, rest, lead).no_duplicates(),
    decreases bgs.len(),
{
    reveal(Seq::filter);
    let like = |bg: BackgroundView| rest.contains(bg.name) && alike(bg, lead);
    let all = companions(bgs, rest, lead);
    if bgs.len() == 0 {
        assert(all.len() == 0);
    } else {
        let front = bgs.drop_last();
        let last = bgs.last();
        companions_members(front, rest, lead);
        let before = companions(front, rest, lead);
        if like(last) {
            assert(all =~= before.push(last.name));
            assert(all[all.len() - 1] == last.name);
        } else {
            assert(all =~= before);
        }
        assert forall|o: Seq<char>| #[trigger] all.contains(o) <==> rest.contains(o)
            && exists|i: int|
            0 <= i < bgs.len() && (#[trigger] bgs[i]).name == o && alike(bgs[i], lead) by {
            if all.contains(o) {
                let j = choose|j: int| 0 <= j < all.len() && all[j] == o;
                if j < before.len() {
                    assert(before[j] == o);
                    assert(before.contains(o));
                    let i = choose|i: int|
                        0 <= i < front.len() && (#[trigger] front[i]).name == o && alike(
                            front[i],
                            lead,
                        );
                    assert(bgs[i] == front[i]);
                } else {
                    assert(bgs[bgs.len() - 1].name == o);
                }
            }
            if rest.contains(o) && exists|i: int|
                0 <= i < bgs.len() && (#[trigger] bgs[i]).name == o && alike(bgs[i], lead) {
                let i = choose|i: int|
                    0 <= i < bgs.len() && (#[trigger] bgs[i]).name == o && alike(bgs[i], lead);
                if i < front.len() {
                    assert(front[i] == bgs[i]);
                    assert(before.contains(o));
                    let j = choose|j: int| 0 <= j < before.len() && before[j] == o;
                    assert(all[j] == o);
                }
            }
        }
        if distinct_names(bgs) {
            assert forall|i: int, j: int|
                0 <= i < front.len() && 0 <= j < front.len() && i != j implies names(front)[i]
                != names(front)[j] by {
                assert(names(front)[i] == names(bgs)[i]);
                assert(names(front)[j] == names(bgs)[j]);
            }
            assert(!before.contains(last.name)) by {
                if before.contains(last.name) {
                    let i = choose|i: int|
                        0 <= i < front.len() && (#[trigger] front[i]).name == last.name && alike(
                            front[i],
                            lead,
                        );
                    assert(names(bgs)[i] == names(bgs)[bgs.len() - 1]);
                }
            }
        }
    }
}

proof fn background_is_the_one(bgs: Seq<BackgroundView>, i: int)
    requires
        distinct_names(bgs),
        0 <= i < bgs.len(),
    ensures
        background_of(bgs, bgs[i].name) == bgs[i],
{
    let all = names(bgs);
    assert(all[i] == bgs[i].name);
    all.index_of_first_ensures(bgs[i].name);
    let first = all.index_of_first(bgs[i].name)->0;
    assert(all[first] == all[i]);
}

proof fn next_group_members(bgs: Seq<BackgroundView>, outputs: Seq<Seq<char>>)
    requires
        outputs.len() > 0,
    ensures
        next_group(bgs, outputs).len() > 0,
        next_group(bgs, outputs)[0] == outputs.last(),
        forall|o: Seq<char>| #[trigger]
            next_group(bgs, outputs).contains(o) ==> outputs.contains(o),
        distinct_names(bgs) && outputs.no_duplicates() ==> next_group(
            bgs,
            outputs,
        ).no_duplicates(),
        distinct_names(bgs) && all_known(bgs, outputs) ==> forall|o: Seq<char>| #[trigger]
            next_group(bgs, outputs).contains(o) <==> outputs.contains(o) && alike(
                background_of(bgs, o),
                background_of(bgs, outputs.last()),
            ),
{
    let last = outputs.last();
    let rest = outputs.drop_last();
    let lead = background_of(bgs, last);
    let others = companions(bgs, rest, lead);
    let group = next_group(bgs, outputs);
    companions_members(bgs, rest, lead);
    assert(group =~= seq![last] + others);
    assert(outputs[outputs.len() - 1] == last);
    assert forall|o: Seq<char>| #[trigger] group.contains(o) <==> o == last || others.contains(
        o,
    ) by {
        assert(group[0] == last);
        if others.contains(o) {
            let j = choose|j: int| 0 <= j < others.len() && others[j] == o;
            assert(group[j + 1] == o);
        }
        if group.contains(o) && o != last {
            let j = choose|j: int| 0 <= j < group.len() && group[j] == o;
            assert(others[j - 1] == o);
        }
    }
    assert forall|o: Seq<char>| #[trigger] outputs.contains(o) <==> o == last || rest.contains(
        o,
    ) by {
        if rest.contains(o) {
            let j = choose|j: int| 0 <= j < rest.len() && rest[j] == o;
            assert(outputs[j] == o);
        }
        if outputs.contains(o) && o != last {
            let j = choose|j: int| 0 <= j < outputs.len() && outputs[j] == o;
            assert(rest[j] == o);
        }
    }
    if distinct_names(bgs) && outputs.no_duplicates() {
        assert(!rest.contains(last)) by {
            if rest.contains(last) {
                let j = choose|j: int| 0 <= j < rest.len() && rest[j] == last;
                assert(outputs[j] == outputs[outputs.len() - 1]);
            }
        }
        assert(!others.contains(last));
    }
    if distinct_names(bgs) && all_known(bgs, outputs) {
        assert forall|o: Seq<char>| #[trigger] group.contains(o) <==> outputs.contains(o) && alike(
            background_of(bgs, o),
            lead,
        ) by {
            if others.contains(o) {
                let i = choose|i: int|
                    0 <= i < bgs.len() && (#[trigger] bgs[i]).name == o && alike(bgs[i], lead);
                background_is_the_one(bgs, i);
            }
            if rest.contains(o) && alike(background_of(bgs, o), lead) {
                assert(outputs.contains(o));
                names(bgs).index_of_first_ensures(o);
                let i = names(bgs).index_of_first(o)->0;
                assert(names(bgs)[i] == bgs[i].name);
                assert(bgs[i].name == o && alike(bgs[i], lead));
            }
        }
    }
}

/// Grouping loses no output, invents none, and puts none into two groups. No group
/// is empty.
pub proof fn groups_cover(bgs: Seq<BackgroundView>, outputs: Seq<Seq<char>>)
    ensures
        forall|g: int|
            0 <= g < output_groups(bgs, outputs).len() ==> (#[trigger] output_groups(
                bgs,
                outputs,
            )[g]).len() > 0,
        forall|o: Seq<char>| #[trigger]
            outputs.contains(o) <==> exists|g: int|
                0 <= g < output_groups(bgs, outputs).len() && (#[trigger] output_groups(
                    bgs,
                    outputs,
                )[g]).contains(o),
        forall|g: int, h: int, o: Seq<char>|
            0 <= g < output_groups(bgs, outputs).len() && 0 <= h < output_groups(
                bgs,
                outputs,
            ).len() && #[trigger] output_groups(bgs, outputs)[g].contains(o)
                && #[trigger] output_groups(bgs, outputs)[h].contains(o) ==> g == h,
    decreases outputs.len(),
{
    let groups = output_groups(bgs, outputs);
    if outputs.len() > 0 {
        let group = next_group(bgs, outputs);
        let left = without(outputs.drop_last(), group);
        let later = output_groups(bgs, left);
        next_group_members(bgs, outputs);
        without_members(outputs.drop_last(), group);
        groups_cover(bgs, left);
        assert(groups =~= seq![group] + later);
        assert forall|o: Seq<char>| #[trigger] outputs.contains(o) <==> group.contains(o)
            || left.contains(o) by {
            assert(group.contains(group[0]));
            if outputs.contains(o) {
                let j = choose|j: int| 0 <= j < outputs.len() && outputs[j] == o;
                if j < outputs.len() - 1 {
                    assert(outputs.drop_last()[j] == o);
                }
            }
            if outputs.drop_last().contains(o) {
                let j = choose|j: int|
                    0 <= j < outputs.drop_last().len() && outputs.drop_last()[j] == o;
                assert(outputs[j] == o);
            }
        }
        assert forall|o: Seq<char>| #[trigger] outputs.contains(o) <==> exists|g: int|
            0 <= g < groups.len() && (#[trigger] groups[g]).contains(o) by {
            if group.contains(o) {
                assert(groups[0].contains(o));
            }
            if left.contains(o) {
                let g = choose|g: int| 0 <= g < later.len() && (#[trigger] later[g]).contains(o);
                assert(groups[g + 1].contains(o));
            }
            if exists|g: int| 0 <= g < groups.len() && (#[trigger] groups[g]).contains(o) {
                let g = choose|g: int|
                    0 <= g < groups.len() && (#[trigger] groups[g]).contains(o);
                if g > 0 {
                    assert(later[g - 1].contains(o));
                }
            }
        }
        assert forall|g: int| 0 <= g < groups.len() implies (#[trigger] groups[g]).len() > 0 by {
            if g > 0 {
                assert(groups[g] == later[g - 1]);
            }
        }
        assert forall|g: int, h: int, o: Seq<char>|
            0 <= g < groups.len() && 0 <= h < groups.len() && #[trigger] groups[g].contains(o)
                && #[trigger] groups[h].contains(o) implies g == h by {
            if g > 0 {
                assert(later[g - 1].contains(o));
                assert(left.contains(o));
            }
            if h > 0 {
                assert(later[h - 1].contains(o));
                assert(left.contains(o));
            }
        }
    }
}

/// Two outputs are in the same group exactly if their backgrounds have the same
/// dimensions and image, and no group names an output twice.
pub proof fn groups_are_the_alike(bgs: Seq<BackgroundView>, outputs: Seq<Seq<char>>)
    requires
        distinct_names(bgs),
        all_known(bgs, outputs),
        outputs.no_duplicates(),
    ensures
        forall|g: int|
            0 <= g < output_groups(bgs, outputs).len() ==> (#[trigger] output_groups(
                bgs,
                outputs,
            )[g]).no_duplicates(),
        forall|g: int, h: int, a: Seq<char>, b: Seq<char>|
            0 <= g < output_groups(bgs, outputs).len() && 0 <= h < output_groups(
                bgs,
                outputs,
            ).len() && #[trigger] output_groups(bgs, outputs)[g].contains(a)
                && #[trigger] output_groups(bgs, outputs)[h].contains(b) ==> (g == h <==> alike(
                background_of(bgs, a),
                background_of(bgs, b),
            )),
    decreases outputs.len(),
{
    let groups = output_groups(bgs, outputs);
    if outputs.len() > 0 {
        let group = next_group(bgs, outputs);
        let front = outputs.drop_last();
        let left = without(front, group);
        let later = output_groups(bgs, left);
        next_group_members(bgs, outputs);
        without_members(front, group);
        assert(groups =~= seq![group] + later);
        assert forall|o: Seq<char>| #[trigger] left.contains(o) implies outputs.contains(o)
            && !group.contains(o) by {
            let j = choose|j: int| 0 <= j < front.len() && front[j] == o;
            assert(outputs[j] == o);
        }
        groups_are_the_alike(bgs, left);
        groups_cover(bgs, left);
        assert forall|g: int| 0 <= g < groups.len() implies (
        #[trigger] groups[g]).no_duplicates() by {
            if g > 0 {
                assert(groups[g] == later[g - 1]);
            }
        }
        assert forall|g: int, h: int, a: Seq<char>, b: Seq<char>|
            0 <= g < groups.len() && 0 <= h < groups.len() && #[trigger] groups[g].contains(a)
                && #[trigger] groups[h].contains(b) implies (g == h <==> alike(
            background_of(bgs, a),
            background_of(bgs, b),
        )) by {
            if g > 0 {
                assert(later[g - 1].contains(a));
                assert(left.contains(a));
            }
            if h > 0 {
                assert(later[h - 1].contains(b));
                assert(left.contains(b));
            }
        }
    }
}

/// Where the items that a filter keeps stand: in their order, each of them, and no other.
proof fn filter_positions<A>(list: Seq<A>, keep: spec_fn(A) -> bool) -> (at: Seq<int>)
    ensures
        at.len() == list.filter(keep).len(),
        forall|k: int| 0 <= k < at.len() ==> 0 <= #[trigger] at[k] < list.len(),
        forall|k: int| 0 <= k < at.len() ==> list.filter(keep)[k] == list[#[trigger] at[k]],
        forall|k: int| 0 <= k < at.len() ==> keep(list[#[trigger] at[k]]),
        forall|k: int, l: int| 0 <= k < l < at.len() ==> #[trigger] at[k] < #[trigger] at[l],
        forall|i: int| 0 <= i < list.len() && keep(#[trigger] list[i]) ==> at.contains(i),
    decreases list.len(),
{
    reveal(Seq::filter);
    if list.len() == 0 {
        Seq::empty()
    } else {
        let front = list.drop_last();
        let before = filter_positions(front, keep);
        if keep(list.last()) {
            let at = before.push(list.len() - 1);
            assert forall|i: int| 0 <= i < list.len() && keep(
                #[trigger] list[i],
            ) implies at.contains(i) by {
                if i < front.len() {
                    assert(front[i] == list[i]);
                    let k = choose|k: int| 0 <= k < before.len() && before[k] == i;
                    assert(at[k] == i);
                } else {
                    assert(at[at.len() - 1] == i);
                }
            }
            at
        } else {
            assert forall|i: int| 0 <= i < list.len() && keep(
                #[trigger] list[i],
            ) implies before.contains(i) by {
                assert(front[i] == list[i]);
            }
            before
        }
    }
}

/// Removing texts from a list leaves, in their order, exactly the items that are not
/// among the removed ones: `at` is where they stood.
pub proof fn removing_keeps_the_others_in_order(
    list: &Vec<String>,
    removed: &Vec<String>,
    r: Vec<String>,
) -> (at: Seq<int>)
    requires
        call_ensures(remove_texts, (list, removed), r),
    ensures
        at.len() == r@.len(),
        forall|k: int| 0 <= k < at.len() ==> 0 <= #[trigger] at[k] < list@.len(),
        forall|k: int| 0 <= k < at.len() ==> r@[k]@ == list@[#[trigger] at[k]]@,
        forall|k: int, l: int| 0 <= k < l < at.len() ==> #[trigger] at[k] < #[trigger] at[l],
        forall|i: int|
            0 <= i < list@.len() ==> (at.contains(i) <==> !removed.deep_view().contains(
                #[trigger] list.deep_view()[i],
            )),
{
    let at = kept_positions(list.deep_view(), removed.deep_view());
    assert forall|k: int| 0 <= k < at.len() implies r@[k]@ == list@[#[trigger] at[k]]@ by {
        assert(r.deep_view()[k] == list.deep_view()[at[k]]);
    }
    at
}

/// Where the items stand that removing others leaves.
pub proof fn kept_positions(list: Seq<Seq<char>>, removed: Seq<Seq<char>>) -> (at: Seq<int>)
    ensures
        at.len() == without(list, removed).len(),
        forall|k: int| 0 <= k < at.len() ==> 0 <= #[trigger] at[k] < list.len(),
        forall|k: int| 0 <= k < at.len() ==> without(list, removed)[k] == list[#[trigger] at[k]],
        forall|k: int, l: int| 0 <= k < l < at.len() ==> #[trigger] at[k] < #[trigger] at[l],
        forall|i: int|
            0 <= i < list.len() ==> (at.contains(i) <==> !removed.contains(#[trigger] list[i])),
{
    let at = filter_positions(list, |item: Seq<char>| !removed.contains(item));
    assert forall|i: int| 0 <= i < list.len() implies (at.contains(i) <==> !removed.contains(
        #[trigger] list[i],
    )) by {
        if at.contains(i) {
            let k = choose|k: int| 0 <= k < at.len() && at[k] == i;
            assert(!removed.contains(list[at[k]]));
        }
    }
    at
}

proof fn plain_names(bgs: &Vec<Background>, outputs: Seq<Seq<char>>)
    ensures
        forall|i: int|
            0 <= i < bgs@.len() ==> names(bgs.deep_view())[i] == (
            #[trigger] bgs@[i]).output_name@,
        (forall|i: int, j: int|
            0 <= i < j < bgs@.len() ==> (#[trigger] bgs@[i]).output_name@ != (
            #[trigger] bgs@[j]).output_name@) ==> distinct_names(bgs.deep_view()),
        (forall|o: Seq<char>| #[trigger]
            outputs.contains(o) ==> exists|i: int|
                0 <= i < bgs@.len() && (#[trigger] bgs@[i]).output_name@ == o) ==> all_known(
            bgs.deep_view(),
            outputs,
        ),
{
    let all = names(bgs.deep_view());
    assert forall|i: int| 0 <= i < bgs@.len() implies all[i] == (
    #[trigger] bgs@[i]).output_name@ by {}
    if forall|i: int, j: int|
        0 <= i < j < bgs@.len() ==> (#[trigger] bgs@[i]).output_name@ != (
        #[trigger] bgs@[j]).output_name@ {
        assert forall|i: int, j: int|
            0 <= i < all.len() && 0 <= j < all.len() && i != j implies all[i] != all[j] by {
            assert(all[i] == bgs@[i].output_name@);
            assert(all[j] == bgs@[j].output_name@);
        }
    }
    if forall|o: Seq<char>| #[trigger]
        outputs.contains(o) ==> exists|i: int|
            0 <= i < bgs@.len() && (#[trigger] bgs@[i]).output_name@ == o {
        assert forall|o: Seq<char>| #[trigger] outputs.contains(o) implies all.contains(o) by {
            let i = choose|i: int| 0 <= i < bgs@.len() && (#[trigger] bgs@[i]).output_name@ == o;
            assert(all[i] == o);
        }
    }
}

/// Outputs that all have a background can be grouped. Every one of them, and nothing else,
/// is in exactly one group, and no group is empty.
pub proof fn every_output_is_in_one_group(
    bgs: &Vec<Background>,
    outputs: Vec<String>,
    r: Vec<Vec<String>>,
)
    ensures
        (forall|o: Seq<char>| #[trigger]
            outputs.deep_view().contains(o) ==> exists|i: int|
                0 <= i < bgs@.len() && (#[trigger] bgs@[i]).output_name@ == o) ==> call_requires(
            get_outputs_groups,
            (bgs, outputs),
        ),
        call_ensures(get_outputs_groups, (bgs, outputs), r) ==> {
            &&& forall|g: int| 0 <= g < r@.len() ==> (#[trigger] r@[g])@.len() > 0
            &&& forall|o: Seq<char>| #[trigger]
                outputs.deep_view().contains(o) <==> exists|g: int|
                    0 <= g < r@.len() && (#[trigger] r@[g]).deep_view().contains(o)
            &&& forall|g: int, h: int, o: Seq<char>|
                0 <= g < r@.len() && 0 <= h < r@.len() && #[trigger] r@[g].deep_view().contains(o)
                    && #[trigger] r@[h].deep_view().contains(o) ==> g == h
        },
{
    plain_names(bgs, outputs.deep_view());
    if call_ensures(get_outputs_groups, (bgs, outputs), r) {
        let views = bgs.deep_view();
        let all = outputs.deep_view();
        let groups = output_groups(views, all);
        groups_cover(views, all);
        assert forall|g: int| 0 <= g < r@.len() implies (
        #[trigger] r@[g]).deep_view() == groups[g] by {
            assert(r.deep_view()[g] == r@[g].deep_view());
        }
        assert forall|g: int| 0 <= g < r@.len() implies (#[trigger] r@[g])@.len() > 0 by {
            assert(r@[g].deep_view().len() == r@[g]@.len());
        }
        assert forall|o: Seq<char>| #[trigger] all.contains(o) <==> exists|g: int|
            0 <= g < r@.len() && (#[trigger] r@[g]).deep_view().contains(o) by {
            if all.contains(o) {
                let g = choose|g: int| 0 <= g < groups.len() && (#[trigger] groups[g]).contains(o);
                assert(r@[g].deep_view().contains(o));
            }
            if exists|g: int| 0 <= g < r@.len() && (#[trigger] r@[g]).deep_view().contains(o) {
                let g = choose|g: int|
                    0 <= g < r@.len() && (#[trigger] r@[g]).deep_view().contains(o);
                assert(groups[g].contains(o));
            }
        }
        assert forall|g: int, h: int, o: Seq<char>|
            0 <= g < r@.len() && 0 <= h < r@.len() && #[trigger] r@[g].deep_view().contains(o)
                && #[trigger] r@[h].deep_view().contains(o) implies g == h by {
            assert(groups[g].contains(o) && groups[h].contains(o));
        }
    }
}

/// Two outputs share a group exactly if their backgrounds have the same width, the same
/// height, and the same image: the same bytes of a path, or none on both.
pub proof fn a_group_shares_size_and_image(
    bgs: &Vec<Background>,
    outputs: Vec<String>,
    r: Vec<Vec<String>>,
)
    requires
        call_ensures(get_outputs_groups, (bgs, outputs), r),
        forall|i: int, j: int|
            0 <= i < j < bgs@.len() ==> (#[trigger] bgs@[i]).output_name@ != (
            #[trigger] bgs@[j]).output_name@,
        forall|o: Seq<char>| #[trigger]
            outputs.deep_view().contains(o) ==> exists|i: int|
                0 <= i < bgs@.len() && (#[trigger] bgs@[i]).output_name@ == o,
        outputs.deep_view().no_duplicates(),
    ensures
        forall|g: int| 0 <= g < r@.len() ==> (#[trigger] r@[g]).deep_view().no_duplicates(),
        forall|g: int, h: int, i: int, j: int|
            0 <= g < r@.len() && 0 <= h < r@.len() && 0 <= i < bgs@.len() && 0 <= j < bgs@.len()
                && #[trigger] r@[g].deep_view().contains(bgs@[i].output_name@)
                && #[trigger] r@[h].deep_view().contains(bgs@[j].output_name@) ==> (g == h <==> {
                &&& bgs@[i].dimensions.0 == bgs@[j].dimensions.0
                &&& bgs@[i].dimensions.1 == bgs@[j].dimensions.1
                &&& match (bgs@[i].img, bgs@[j].img) {
                    (Some(x), Some(y)) => x@ == y@,
                    (None, None) => true,
                    _ => false,
                }
            }),
{
    let views = bgs.deep_view();
    let all = outputs.deep_view();
    let groups = output_groups(views, all);
    plain_names(bgs, all);
    groups_are_the_alike(views, all);
    assert forall|g: int| 0 <= g < r@.len() implies (
    #[trigger] r@[g]).deep_view() == groups[g] by {
        assert(r.deep_view()[g] == r@[g].deep_view());
    }
    assert forall|g: int, h: int, i: int, j: int|
        0 <= g < r@.len() && 0 <= h < r@.len() && 0 <= i < bgs@.len() && 0 <= j < bgs@.len()
            && #[trigger] r@[g].deep_view().contains(bgs@[i].output_name@)
            && #[trigger] r@[h].deep_view().contains(bgs@[j].output_name@) implies (g == h <==> {
        &&& bgs@[i].dimensions.0 == bgs@[j].dimensions.0
        &&& bgs@[i].dimensions.1 == bgs@[j].dimensions.1
        &&& match (bgs@[i].img, bgs@[j].img) {
            (Some(x), Some(y)) => x@ == y@,
            (None, None) => true,
            _ => false,
        }
    }) by {
        background_is_the_one(views, i);
        background_is_the_one(views, j);
        assert(views[i].name == bgs@[i].output_name@);
        assert(views[j].name == bgs@[j].output_name@);
        assert(groups[g].contains(views[i].name) && groups[h].contains(views[j].name));
        assert(views[i] == bgs@[i].deep_view() && views[j] == bgs@[j].deep_view());
    }
}

proof fn groups_in_order(bgs: Seq<BackgroundView>, outputs: Seq<Seq<char>>)
    requires
        distinct_names(bgs),
        outputs.no_duplicates(),
    ensures
        forall|g: int, i: int, j: int|
            0 <= g < output_groups(bgs, outputs).len() && 0 <= i < outputs.len() && 0 <= j
                < outputs.len() && #[trigger] outputs[i] == output_groups(bgs, outputs)[g][0]
                && #[trigger] output_groups(bgs, outputs)[g].contains(outputs[j]) ==> j <= i,
        forall|g: int, h: int, i: int, j: int|
            0 <= g < h < output_groups(bgs, outputs).len() && 0 <= i < outputs.len() && 0 <= j
                < outputs.len() && #[trigger] outputs[i] == (#[trigger] output_groups(
                bgs,
                outputs,
            )[g])[0] && #[trigger] outputs[j] == (#[trigger] output_groups(bgs, outputs)[h])[0]
                ==> j < i,
        forall|g: int, m: int, n: int, i: int, j: int|
            0 <= g < output_groups(bgs, outputs).len() && 1 <= m < n < output_groups(
                bgs,
                outputs,
            )[g].len() && 0 <= i < bgs.len() && 0 <= j < bgs.len() && (#[trigger] bgs[i]).name
                == #[trigger] output_groups(bgs, outputs)[g][m] && (#[trigger] bgs[j]).name
                == #[trigger] output_groups(bgs, outputs)[g][n] ==> i < j,
    decreases outputs.len(),
{
    let groups = output_groups(bgs, outputs);
    if outputs.len() > 0 {
        let group = next_group(bgs, outputs);
        let front = outputs.drop_last();
        let left = without(front, group);
        let later = output_groups(bgs, left);
        let last = outputs.len() - 1;
        let lead = background_of(bgs, outputs.last());
        next_group_members(bgs, outputs);
        without_members(front, group);
        groups_cover(bgs, left);
        groups_in_order(bgs, left);
        let at = kept_positions(front, group);
        let like = |bg: BackgroundView| front.contains(bg.name) && alike(bg, lead);
        let among = filter_positions(bgs, like);
        assert(groups =~= seq![group] + later);
        assert forall|g: int, o: Seq<char>|
            1 <= g < groups.len() && #[trigger] groups[g].contains(o) implies left.contains(o) by {
            assert(later[g - 1].contains(o));
        }
        assert forall|g: int| 1 <= g < groups.len() implies (
        #[trigger] groups[g]).len() > 0 && groups[g] == later[g - 1] && groups[g].contains(
            groups[g][0],
        ) by {
            assert(later[g - 1].len() > 0);
        }
        assert forall|k: int| 0 <= k < left.len() implies left[k] == outputs[#[trigger] at[k]] by {
            assert(left[k] == front[at[k]]);
        }
        assert forall|i: int| 0 <= i < outputs.len() && left.contains(
            #[trigger] outputs[i],
        ) implies exists|k: int|
            0 <= k < left.len() && #[trigger] at[k] == i && left[k] == outputs[i] by {
            let k = choose|k: int| 0 <= k < left.len() && left[k] == outputs[i];
            assert(outputs[at[k]] == outputs[i]);
        }
        assert forall|g: int, i: int, j: int|
            0 <= g < groups.len() && 0 <= i < outputs.len() && 0 <= j < outputs.len()
                && #[trigger] outputs[i] == groups[g][0] && #[trigger] groups[g].contains(
                outputs[j],
            ) implies j <= i by {
            if g == 0 {
                assert(outputs[i] == outputs[last]);
            } else {
                assert(groups[g].contains(groups[g][0]));
                assert(left.contains(outputs[i]) && left.contains(outputs[j]));
                let k = choose|k: int|
                    0 <= k < left.len() && #[trigger] at[k] == i && left[k] == outputs[i];
                let l = choose|l: int|
                    0 <= l < left.len() && #[trigger] at[l] == j && left[l] == outputs[j];
                assert(left[k] == later[g - 1][0]);
                assert(later[g - 1].contains(left[l]));
                assert(l <= k);
            }
        }
        assert forall|g: int, h: int, i: int, j: int|
            0 <= g < h < groups.len() && 0 <= i < outputs.len() && 0 <= j < outputs.len()
                && #[trigger] outputs[i] == (#[trigger] groups[g])[0] && #[trigger] outputs[j]
                == (#[trigger] groups[h])[0] implies j < i by {
            assert(groups[h].contains(groups[h][0]));
            assert(left.contains(outputs[j]));
            let l = choose|l: int|
                0 <= l < left.len() && #[trigger] at[l] == j && left[l] == outputs[j];
            if g == 0 {
                assert(outputs[i] == outputs[last]);
            } else {
                assert(groups[g].contains(groups[g][0]));
                assert(left.contains(outputs[i]));
                let k = choose|k: int|
                    0 <= k < left.len() && #[trigger] at[k] == i && left[k] == outputs[i];
                assert(left[k] == later[g - 1][0]);
                assert(left[l] == later[h - 1][0]);
                assert(l < k);
            }
        }
        assert forall|g: int, m: int, n: int, i: int, j: int|
            0 <= g < groups.len() && 1 <= m < n < groups[g].len() && 0 <= i < bgs.len() && 0 <= j
                < bgs.len() && (#[trigger] bgs[i]).name == #[trigger] groups[g][m] && (
            #[trigger] bgs[j]).name == #[trigger] groups[g][n] implies i < j by {
            if g == 0 {
                let kept = bgs.filter(like);
                assert(companions(bgs, front, lead) == names(kept));
                assert(group[m] == names(kept)[m - 1]);
                assert(group[n] == names(kept)[n - 1]);
                assert(kept[m - 1] == bgs[among[m - 1]]);
                assert(kept[n - 1] == bgs[among[n - 1]]);
                assert(names(bgs)[i] == names(bgs)[among[m - 1]]);
                assert(names(bgs)[j] == names(bgs)[among[n - 1]]);
            } else {
                assert(groups[g] == later[g - 1]);
                assert(bgs[i].name == later[g - 1][m]);
                assert(bgs[j].name == later[g - 1][n]);
            }
        }
    }
}

/// Groups are formed from the end of the list of outputs: the first of a group is the one
/// of its outputs that stands last in the list, a group comes before another one exactly
/// if its first output stands after that of the other, and the rest of a group comes in
/// the order of the backgrounds.
pub proof fn groups_are_formed_from_the_end(
    bgs: &Vec<Background>,
    outputs: Vec<String>,
    r: Vec<Vec<String>>,
)
    requires
        call_ensures(get_outputs_groups, (bgs, outputs), r),
        forall|i: int, j: int|
            0 <= i < j < bgs@.len() ==> (#[trigger] bgs@[i]).output_name@ != (
            #[trigger] bgs@[j]).output_name@,
        outputs.deep_view().no_duplicates(),
    ensures
        forall|g: int, i: int, j: int|
            0 <= g < r@.len() && 0 <= i < outputs@.len() && 0 <= j < outputs@.len()
                && #[trigger] outputs.deep_view()[i] == r@[g].deep_view()[0]
                && #[trigger] r@[g].deep_view().contains(outputs.deep_view()[j]) ==> j <= i,
        forall|g: int, h: int, i: int, j: int|
            0 <= g < h < r@.len() && 0 <= i < outputs@.len() && 0 <= j < outputs@.len()
                && #[trigger] outputs.deep_view()[i] == (#[trigger] r@[g]).deep_view()[0]
                && #[trigger] outputs.deep_view()[j] == (#[trigger] r@[h]).deep_view()[0] ==> j
                < i,
        forall|g: int, m: int, n: int, i: int, j: int|
            0 <= g < r@.len() && 1 <= m < n < r@[g]@.len() && 0 <= i < bgs@.len() && 0 <= j
                < bgs@.len() && (#[trigger] bgs@[i]).output_name@
                == #[trigger] r@[g].deep_view()[m] && (#[trigger] bgs@[j]).output_name@
                == #[trigger] r@[g].deep_view()[n] ==> i < j,
{
    let views = bgs.deep_view();
    let all = outputs.deep_view();
    let groups = output_groups(views, all);
    plain_names(bgs, all);
    groups_in_order(views, all);
    assert(all.len() == outputs@.len());
    assert forall|g: int| 0 <= g < r@.len() implies (
    #[trigger] r@[g]).deep_view() == groups[g] by {
        assert(r.deep_view()[g] == r@[g].deep_view());
    }
    assert forall|g: int, h: int, i: int, j: int|
        0 <= g < h < r@.len() && 0 <= i < outputs@.len() && 0 <= j < outputs@.len()
            && #[trigger] all[i] == (#[trigger] r@[g]).deep_view()[0] && #[trigger] all[j] == (
        #[trigger] r@[h]).deep_view()[0] implies j < i by {
        assert(all[i] == groups[g][0] && all[j] == groups[h][0]);
    }
    assert forall|g: int, m: int, n: int, i: int, j: int|
        0 <= g < r@.len() && 1 <= m < n < r@[g]@.len() && 0 <= i < bgs@.len() && 0 <= j
            < bgs@.len() && (#[trigger] bgs@[i]).output_name@ == #[trigger] r@[g].deep_view()[m]
            && (#[trigger] bgs@[j]).output_name@
            == #[trigger] r@[g].deep_view()[n] implies i < j by {
        assert(r@[g].deep_view().len() == r@[g]@.len());
        assert(views[i].name == groups[g][m]);
        assert(views[j].name == groups[g][n]);
    }
}

proof fn groups_follow_their_lead(bgs: Seq<BackgroundView>, outputs: Seq<Seq<char>>)
    ensures
        forall|g: int, o: Seq<char>|
            0 <= g < output_groups(bgs, outputs).len() && #[trigger] output_groups(
                bgs,
                outputs,
            )[g].contains(o) && o != output_groups(bgs, outputs)[g][0] ==> exists|i: int|
                0 <= i < bgs.len() && (#[trigger] bgs[i]).name == o && alike(
                    bgs[i],
                    background_of(bgs, output_groups(bgs, outputs)[g][0]),
                ),
        forall|g: int, h: int, i: int|
            0 <= g < h < output_groups(bgs, outputs).len() && 0 <= i < bgs.len()
                && #[trigger] output_groups(bgs, outputs)[h].contains((#[trigger] bgs[i]).name)
                ==> !alike(
                bgs[i],
                background_of(bgs, (#[trigger] output_groups(bgs, outputs)[g])[0]),
            ),
    decreases outputs.len(),
{
    let groups = output_groups(bgs, outputs);
    if outputs.len() > 0 {
        let group = next_group(bgs, outputs);
        let rest = outputs.drop_last();
        let left = without(rest, group);
        let later = output_groups(bgs, left);
        let lead = background_of(bgs, outputs.last());
        let others = companions(bgs, rest, lead);
        next_group_members(bgs, outputs);
        companions_members(bgs, rest, lead);
        without_members(rest, group);
        groups_cover(bgs, left);
        groups_follow_their_lead(bgs, left);
        assert(groups =~= seq![group] + later);
        assert(group =~= seq![outputs.last()] + others);
        assert forall|g: int, o: Seq<char>|
            0 <= g < groups.len() && #[trigger] groups[g].contains(o) && o
                != groups[g][0] implies exists|i: int|
            0 <= i < bgs.len() && (#[trigger] bgs[i]).name == o && alike(
                bgs[i],
                background_of(bgs, groups[g][0]),
            ) by {
            if g == 0 {
                let j = choose|j: int| 0 <= j < group.len() && group[j] == o;
                assert(others[j - 1] == o);
                assert(others.contains(o));
            } else {
                assert(groups[g] == later[g - 1]);
                assert(later[g - 1].contains(o));
            }
        }
        assert forall|g: int, h: int, i: int|
            0 <= g < h < groups.len() && 0 <= i < bgs.len() && #[trigger] groups[h].contains(
                (#[trigger] bgs[i]).name,
            ) implies !alike(bgs[i], background_of(bgs, (#[trigger] groups[g])[0])) by {
            assert(groups[h] == later[h - 1]);
            assert(later[h - 1].contains(bgs[i].name));
            if g == 0 {
                let o = bgs[i].name;
                assert(left.contains(o));
                if alike(bgs[i], lead) {
                    assert(others.contains(o));
                    let j = choose|j: int| 0 <= j < others.len() && others[j] == o;
                    assert(group[j + 1] == o);
                }
            } else {
                assert(groups[g] == later[g - 1]);
            }
        }
    }
}

/// Whatever the backgrounds are, even if several have one name, a group goes by the first
/// background of its first output, `j`: every other output of it has a background of that
/// size and with that image, and no output of a later group has one.
pub proof fn a_group_goes_by_its_first_output(
    bgs: &Vec<Background>,
    outputs: Vec<String>,
    r: Vec<Vec<String>>,
    g: int,
    j: int,
)
    requires
        call_ensures(get_outputs_groups, (bgs, outputs), r),
        0 <= g < r@.len(),
        0 <= j < bgs@.len(),
        bgs@[j].output_name@ == r@[g].deep_view()[0],
        forall|i: int| 0 <= i < j ==> (#[trigger] bgs@[i]).output_name@ != r@[g].deep_view()[0],
    ensures
        forall|o: Seq<char>| #[trigger]
            r@[g].deep_view().contains(o) && o != r@[g].deep_view()[0] ==> exists|i: int|
                0 <= i < bgs@.len() && (#[trigger] bgs@[i]).output_name@ == o && {
                    &&& bgs@[i].dimensions.0 == bgs@[j].dimensions.0
                    &&& bgs@[i].dimensions.1 == bgs@[j].dimensions.1
                    &&& match (bgs@[i].img, bgs@[j].img) {
                        (Some(x), Some(y)) => x@ == y@,
                        (None, None) => true,
                        _ => false,
                    }
                },
        forall|h: int, i: int|
            g < h < r@.len() && 0 <= i < bgs@.len() && #[trigger] r@[h].deep_view().contains(
                (#[trigger] bgs@[i]).output_name@,
            ) ==> !{
                &&& bgs@[i].dimensions.0 == bgs@[j].dimensions.0
                &&& bgs@[i].dimensions.1 == bgs@[j].dimensions.1
                &&& match (bgs@[i].img, bgs@[j].img) {
                    (Some(x), Some(y)) => x@ == y@,
                    (None, None) => true,
                    _ => false,
                }
            },
{
    let views = bgs.deep_view();
    let groups = output_groups(views, outputs.deep_view());
    let all = names(views);
    let lead = r@[g].deep_view()[0];
    plain_names(bgs, outputs.deep_view());
    groups_follow_their_lead(views, outputs.deep_view());
    all.index_of_first_ensures(lead);
    assert(all[j] == lead);
    let first = all.index_of_first(lead)->0;
    assert(all[first] == bgs@[first].output_name@);
    assert(first == j);
    assert(views[j] == bgs@[j].deep_view());
    assert forall|h: int| 0 <= h < r@.len() implies (
    #[trigger] r@[h]).deep_view() == groups[h] by {
        assert(r.deep_view()[h] == r@[h].deep_view());
    }
    assert forall|o: Seq<char>| #[trigger]
        r@[g].deep_view().contains(o) && o != lead implies exists|i: int|
        0 <= i < bgs@.len() && (#[trigger] bgs@[i]).output_name@ == o && {
            &&& bgs@[i].dimensions.0 == bgs@[j].dimensions.0
            &&& bgs@[i].dimensions.1 == bgs@[j].dimensions.1
            &&& match (bgs@[i].img, bgs@[j].img) {
                (Some(x), Some(y)) => x@ == y@,
                (None, None) => true,
                _ => false,
            }
        } by {
        assert(groups[g].contains(o));
        let i = choose|i: int|
            0 <= i < views.len() && (#[trigger] views[i]).name == o && alike(views[i], views[j]);
        assert(views[i] == bgs@[i].deep_view());
        assert(bgs@[i].output_name@ == o);
    }
    assert forall|h: int, i: int|
        g < h < r@.len() && 0 <= i < bgs@.len() && #[trigger] r@[h].deep_view().contains(
            (#[trigger] bgs@[i]).output_name@,
        ) implies !{
        &&& bgs@[i].dimensions.0 == bgs@[j].dimensions.0
        &&& bgs@[i].dimensions.1 == bgs@[j].dimensions.1
        &&& match (bgs@[i].img, bgs@[j].img) {
            (Some(x), Some(y)) => x@ == y@,
            (None, None) => true,
            _ => false,
        }
    } by {
        assert(views[i] == bgs@[i].deep_view());
        assert(groups[h].contains(views[i].name));
        assert(groups[g][0] == lead);
        assert(!alike(views[i], views[j]));
    }
}

} // verus!
