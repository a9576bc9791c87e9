//! Choosing the outputs that a request is for, and grouping those that can share
//! their frames.
use vstd::prelude::*;

verus! {

/// What an output shows.
pub struct Background {
    pub output_name: String,
    /// Width and height in pixels.
    pub dimensions: (u32, u32),
    /// The path of the image that was last asked for, in bytes. Paths are told apart by
    /// their bytes: callers give each path in one spelling.
    pub img: Option<Vec<u8>>,
    /// The pixels that are on screen.
    pub current_img: Vec<u8>,
}

/// The mathematical view of a `Background`.
pub struct BackgroundView {
    pub name: Seq<char>,
    pub dimensions: (u32, u32),
    pub img: Option<Seq<u8>>,
    pub current_img: Seq<u8>,
}

impl DeepView for Background {
    type V = BackgroundView;

    open spec fn deep_view(&self) -> BackgroundView {
        BackgroundView {
            name: self.output_name@,
            dimensions: self.dimensions,
            img: match self.img {
                Some(path) => Some(path@),
                None => None,
            },
            current_img: self.current_img@,
        }
    }
}

/// The output names, in order.
pub open spec fn names(bgs: Seq<BackgroundView>) -> Seq<Seq<char>> {
    bgs.map_values(|bg: BackgroundView| bg.name)
}

/// No two backgrounds belong to the same output.
pub open spec fn distinct_names(bgs: Seq<BackgroundView>) -> bool {
    names(bgs).no_duplicates()
}

/// The parts of a text between its separators, empty parts among them.
pub open spec fn split_on(text: Seq<char>, separator: char) -> Seq<Seq<char>>
    decreases text.len(),
{
    if text.len() == 0 {
        seq![Seq::<char>::empty()]
    } else {
        let parts = split_on(text.drop_last(), separator);
        if text.last() == separator {
            parts.push(Seq::<char>::empty())
        } else {
            parts.drop_last().push(parts.last().push(text.last()))
        }
    }
}

/// The items of `asked` that are in `known`, each where it occurs first.
pub open spec fn known_once(asked: Seq<Seq<char>>, known: Seq<Seq<char>>) -> Seq<Seq<char>>
    decreases asked.len(),
{
    if asked.len() == 0 {
        Seq::empty()
    } else {
        let before = known_once(asked.drop_last(), known);
        if known.contains(asked.last()) && !before.contains(asked.last()) {
            before.push(asked.last())
        } else {
            before
        }
    }
}

/// The outputs that a request is for: all of them if it names none, and otherwise
/// those of the named ones that exist.
pub open spec fn real_outputs(known: Seq<Seq<char>>, request: Seq<char>) -> Seq<Seq<char>> {
    if request.len() == 0 {
        known
    } else {
        known_once(split_on(request, ','), known)
    }
}

/// Whether `list` holds `text`.
pub fn contains_text(list: &Vec<String>, text: &String) -> (r: bool)
    ensures
        r == list.deep_view().contains(text@),
{
    let mut i: usize = 0;
    while i < list.len()
        invariant
            i <= list.len(),
            forall|j: int| 0 <= j < i ==> #[trigger] list.deep_view()[j] != text@,
        decreases list.len() - i,
    {
        assert(list.deep_view()[i as int] == list@[i as int]@);
        if list[i] == *text {
            return true;
        }
        i = i + 1;
    }
    false
}

/// Finds the first background of the output called `name`.
pub fn find_background(bgs: &Vec<Background>, name: &String) -> (r: Option<usize>)
    ensures
        match r {
            Some(i) => names(bgs.deep_view()).index_of_first(name@) == Some(i as int),
            None => names(bgs.deep_view()).index_of_first(name@) is None,
        },
{
    let ghost all = names(bgs.deep_view());
    proof {
        all.index_of_first_ensures(name@);
    }
    let mut i: usize = 0;
    while i < bgs.len()
        invariant
            i <= bgs.len(),
            all == names(bgs.deep_view()),
            forall|j: int| 0 <= j < i ==> #[trigger] all[j] != name@,
            match all.index_of_first(name@) {
                Some(index) => {
                    &&& 0 <= index < all.len()
                    &&& all[index] == name@
                    &&& forall|j: int| 0 <= j < index < all.len() ==> all[j] != name@
                },
                None => !all.contains(name@),
            },
        decreases bgs.len() - i,
    {
        assert(all[i as int] == bgs@[i as int].output_name@);
        if bgs[i].output_name == *name {
            return Some(i);
        }
        i = i + 1;
    }
    None
}

fn split_commas(text: &str) -> (r: Vec<String>)
    ensures
        r.deep_view() == split_on(text@, ','),
{
    let mut parts: Vec<String> = Vec::new();
    let len: usize = text.unicode_len();
    let mut start: usize = 0;
    let mut i: usize = 0;
    assert(text@.take(0) =~= Seq::<char>::empty());
    assert(parts.deep_view().push(text@.subrange(0, 0)) =~= split_on(text@.take(0), ','));
    while i < len
        invariant
            start <= i <= len,
            len == text@.len(),
            parts.deep_view().push(text@.subrange(start as int, i as int)) == split_on(
                text@.take(i as int),
                ',',
            ),
        decreases len - i,
    {
        let ghost before = parts.deep_view();
        let ghost part = text@.subrange(start as int, i as int);
        assert(text@.take(i + 1).drop_last() =~= text@.take(i as int));
        assert(before.push(part).drop_last() =~= before);
        if text.get_char(i) == ',' {
            parts.push(text.substring_char(start, i).to_owned());
            assert(parts.deep_view() =~= before.push(part));
            start = i + 1;
            assert(text@.subrange(start as int, i + 1) =~= Seq::<char>::empty());
        } else {
            assert(text@.subrange(start as int, i + 1) =~= part.push(text@[i as int]));
        }
        i = i + 1;
    }
    let ghost before = parts.deep_view();
    parts.push(text.substring_char(start, len).to_owned());
    assert(parts.deep_view() =~= before.push(text@.subrange(start as int, len as int)));
    assert(text@.take(len as int) =~= text@);
    parts
}

fn all_names(bgs: &Vec<Background>) -> (r: Vec<String>)
    ensures
        r.deep_view() == names(bgs.deep_view()),
{
    let mut r: Vec<String> = Vec::with_capacity(bgs.len());
    let mut i: usize = 0;
    while i < bgs.len()
        invariant
            i <= bgs.len(),
            r.deep_view() == names(bgs.deep_view()).take(i as int),
        decreases bgs.len() - i,
    {
        let ghost before = r.deep_view();
        r.push(bgs[i].output_name.clone());
        assert(r.deep_view() =~= before.push(bgs@[i as int].output_name@));
        assert(names(bgs.deep_view()).take(i + 1) =~= before.push(bgs@[i as int].output_name@));
        i = i + 1;
    }
    r
}

/// The outputs that a request is for. `outputs` lists names between commas; an
/// empty text stands for all outputs. Names of no output, and repeated ones, are
/// left out.
pub fn get_real_outputs(bgs: &Vec<Background>, outputs: &str) -> (r: Vec<String>)
    ensures
        r.deep_view() == real_outputs(names(bgs.deep_view()), outputs@),
{
    let known = all_names(bgs);
    if outputs.is_empty() {
        return known;
    }
    let asked = split_commas(outputs);
    let mut chosen: Vec<String> = Vec::with_capacity(bgs.len());
    let mut i: usize = 0;
    assert(chosen.deep_view() =~= known_once(asked.deep_view().take(0), known.deep_view()));
    while i < asked.len()
        invariant
            i <= asked.len(),
            chosen.deep_view() == known_once(
                asked.deep_view().take(i as int),
                known.deep_view(),
            ),
        decreases asked.len() - i,
    {
        let ghost before = chosen.deep_view();
        assert(asked.deep_view().take(i + 1).drop_last() =~= asked.deep_view().take(i as int));
        assert(asked.deep_view().take(i + 1).last() == asked@[i as int]@);
        if contains_text(&known, &asked[i]) && !contains_text(&chosen, &asked[i]) {
            chosen.push(asked[i].clone());
            assert(chosen.deep_view() =~= before.push(asked@[i as int]@));
        }
        i = i + 1;
    }
    assert(asked.deep_view().take(asked.len() as int) =~= asked.deep_view());
    chosen
}

/// The texts of `parts` with the separator between them.
pub open spec fn join(parts: Seq<Seq<char>>, separator: char) -> Seq<char>
    decreases parts.len(),
{
    if parts.len() == 0 {
        Seq::empty()
    } else if parts.len() == 1 {
        parts[0]
    } else {
        join(parts.drop_last(), separator).push(separator) + parts.last()
    }
}

/// Splitting a text loses nothing: joining the parts gives it back, and no part
/// holds a separator.
pub proof fn split_joins_back(text: Seq<char>, separator: char)
    ensures
        split_on(text, separator).len() > 0,
        join(split_on(text, separator), separator) == text,
        forall|i: int|
            0 <= i < split_on(text, separator).len() ==> !(#[trigger] split_on(
                text,
                separator,
            )[i]).contains(separator),
    decreases text.len(),
{
    if text.len() > 0 {
        let front = text.drop_last();
        split_joins_back(front, separator);
        let parts = split_on(front, separator);
        let all = split_on(text, separator);
        assert(front.push(text.last()) =~= text);
        if text.last() == separator {
            assert(all.drop_last() =~= parts);
            assert(join(all, separator) =~= text);
        } else {
            let end = parts.last().push(text.last());
            assert(all.drop_last() =~= parts.drop_last());
            assert(join(all, separator) =~= text);
            assert(!end.contains(separator)) by {
                if end.contains(separator) {
                    let j = choose|j: int| 0 <= j < end.len() && end[j] == separator;
                    assert(parts[parts.len() - 1][j] == separator);
                    assert(parts[parts.len() - 1].contains(separator));
                }
            }
            assert forall|i: int| 0 <= i < all.len() implies !(#[trigger] all[i]).contains(
                separator,
            ) by {
                if i < parts.len() - 1 {
                    assert(all[i] == parts[i]);
                }
            }
        }
    }
}

proof fn known_once_members(asked: Seq<Seq<char>>, known: Seq<Seq<char>>)
    ensures
        known_once(asked, known).no_duplicates(),
        forall|o: Seq<char>| #[trigger]
            known_once(asked, known).contains(o) <==> asked.contains(o) && known.contains(o),
    decreases asked.len(),
{
    if asked.len() > 0 {
        let front = asked.drop_last();
        let last = asked.last();
        known_once_members(front, known);
        let before = known_once(front, known);
        let all = known_once(asked, known);
        assert(front.push(last) =~= asked);
        assert forall|o: Seq<char>| #[trigger] all.contains(o) <==> asked.contains(o)
            && known.contains(o) by {
            assert(asked.contains(o) <==> front.contains(o) || o == last) by {
                if front.contains(o) {
                    let j = choose|j: int| 0 <= j < front.len() && front[j] == o;
                    assert(asked[j] == o);
                }
                assert(asked[asked.len() - 1] == last);
                if asked.contains(o) && o != last {
                    let j = choose|j: int| 0 <= j < asked.len() && asked[j] == o;
                    assert(front[j] == o);
                }
            }
            if known.contains(last) && !before.contains(last) {
                assert(all[all.len() - 1] == last);
                if before.contains(o) {
                    let j = choose|j: int| 0 <= j < before.len() && before[j] == o;
                    assert(all[j] == o);
                }
                if all.contains(o) && o != last {
                    let j = choose|j: int| 0 <= j < all.len() && all[j] == o;
                    assert(before[j] == o);
                }
            }
        }
    }
}

/// A request reaches exactly the existing outputs that it names, or all outputs if
/// it is empty, and none of them twice.
pub proof fn request_reaches_named_outputs(known: Seq<Seq<char>>, request: Seq<char>)
    ensures
        forall|o: Seq<char>| #[trigger]
            real_outputs(known, request).contains(o) <==> known.contains(o) && (request.len()
                == 0 || split_on(request, ',').contains(o)),
        request.len() > 0 || known.no_duplicates() ==> real_outputs(
            known,
            request,
        ).no_duplicates(),
{
    if request.len() > 0 {
        known_once_members(split_on(request, ','), known);
    }
}

proof fn known_once_order(asked: Seq<Seq<char>>, known: Seq<Seq<char>>, i: int, j: int)
    requires
        0 <= i < j < known_once(asked, known).len(),
    ensures
        asked.index_of_first(known_once(asked, known)[i])->0 < asked.index_of_first(
            known_once(asked, known)[j],
        )->0,
    decreases asked.len(),
{
    let front = asked.drop_last();
    let last = asked.last();
    let before = known_once(front, known);
    let all = known_once(asked, known);
    let a = all[i];
    let b = all[j];
    known_once_members(asked, known);
    known_once_members(front, known);
    assert(all.contains(a) && all.contains(b));
    assert(before[i] == a);
    assert(before.contains(a));
    asked.index_of_first_ensures(a);
    asked.index_of_first_ensures(b);
    front.index_of_first_ensures(a);
    front.index_of_first_ensures(b);
    let at_a = asked.index_of_first(a)->0;
    let at_b = asked.index_of_first(b)->0;
    assert(asked[front.index_of_first(a)->0] == a);
    assert(at_a <= front.index_of_first(a)->0);
    assert(front[at_a] == a);
    if j < before.len() {
        assert(before[j] == b);
        assert(before.contains(b));
        assert(asked[front.index_of_first(b)->0] == b);
        assert(at_b <= front.index_of_first(b)->0);
        assert(front[at_b] == b);
        known_once_order(front, known, i, j);
    } else {
        assert(b == last);
        if at_b < front.len() {
            assert(front[at_b] == b);
            assert(front.contains(b));
        }
    }
}

/// The outputs of a request come in the order in which it names them first; those of
/// an empty request come in their own order.
pub proof fn request_order_is_kept(known: Seq<Seq<char>>, request: Seq<char>)
    ensures
        request.len() == 0 ==> real_outputs(known, request) == known,
        request.len() > 0 ==> forall|i: int, j: int|
            0 <= i < j < real_outputs(known, request).len() ==> split_on(
                request,
                ',',
            ).index_of_first(#[trigger] real_outputs(known, request)[i])->0 < split_on(
                request,
                ',',
            ).index_of_first(#[trigger] real_outputs(known, request)[j])->0,
{
    if request.len() > 0 {
        assert forall|i: int, j: int|
            0 <= i < j < real_outputs(known, request).len() implies split_on(
            request,
            ',',
        ).index_of_first(#[trigger] real_outputs(known, request)[i])->0 < split_on(
            request,
            ',',
        ).index_of_first(#[trigger] real_outputs(known, request)[j])->0 by {
            known_once_order(split_on(request, ','), known, i, j);
        }
    }
}

/// Looking for an output finds its first background, and nothing only if it has none.
pub proof fn the_first_background_is_found(
    bgs: &Vec<Background>,
    name: &String,
    r: Option<usize>,
)
    requires
        call_ensures(find_background, (bgs, name), r),
    ensures
        match r {
            Some(i) => {
                &&& i < bgs@.len()
                &&& bgs@[i as int].output_name@ == name@
                &&& forall|j: int| 0 <= j < i ==> (#[trigger] bgs@[j]).output_name@ != name@
            },
            None => forall|j: int|
                0 <= j < bgs@.len() ==> (#[trigger] bgs@[j]).output_name@ != name@,
        },
{
    let all = names(bgs.deep_view());
    all.index_of_first_ensures(name@);
    assert forall|j: int| 0 <= j < bgs@.len() implies all[j] == (
    #[trigger] bgs@[j]).output_name@ by {}
    match r {
        Some(i) => {
            assert forall|j: int| 0 <= j < i implies (
            #[trigger] bgs@[j]).output_name@ != name@ by {
                assert(all[j] != name@);
            }
        },
        None => {
            assert forall|j: int| 0 <= j < bgs@.len() implies (
            #[trigger] bgs@[j]).output_name@ != name@ by {
                assert(all[j] == bgs@[j].output_name@);
                assert(!all.contains(name@));
            }
        },
    }
}

/// `cuts` is where a text is cut into its parts: before it, at every separator, and after
/// it.
spec fn cut_at(text: Seq<char>, separator: char, cuts: Seq<int>) -> bool {
    &&& cuts.len() == split_on(text, separator).len() + 1
    &&& cuts.len() >= 2
    &&& cuts[0] == -1
    &&& cuts.last() == text.len()
    &&& forall|i: int, j: int|
        0 <= i < j < cuts.len() ==> #[trigger] cuts[i] < #[trigger] cuts[j]
    &&& forall|i: int|
        0 < i < cuts.len() - 1 ==> 0 <= #[trigger] cuts[i] < text.len() && text[cuts[i]]
            == separator
    &&& forall|k: int|
        0 <= k < text.len() && #[trigger] text[k] == separator ==> exists|i: int|
            0 < i < cuts.len() - 1 && #[trigger] cuts[i] == k
    &&& forall|i: int, j: int|
        0 <= i && j == i + 1 && j < cuts.len() ==> split_on(text, separator)[i] == text.subrange(
            #[trigger] cuts[i] + 1,
            #[trigger] cuts[j],
        )
}

proof fn cuts_of(text: Seq<char>, separator: char) -> (cuts: Seq<int>)
    ensures
        cut_at(text, separator, cuts),
    decreases text.len(),
{
    let parts = split_on(text, separator);
    if text.len() == 0 {
        let cuts = seq![-1int, 0];
        assert(parts[0] =~= text.subrange(0, 0));
        cuts
    } else {
        let front = text.drop_last();
        let n = text.len() - 1;
        let before = cuts_of(front, separator);
        let old_parts = split_on(front, separator);
        let last = before.len() - 1;
        assert forall|k: int| 0 <= k < n implies front[k] == #[trigger] text[k] by {}
        if text.last() == separator {
            let cuts = before.push(text.len() as int);
            assert(cuts[last] == n);
            assert forall|k: int| 0 <= k < text.len() && #[trigger] text[k]
                == separator implies exists|i: int| 0 < i < cuts.len() - 1 && #[trigger] cuts[i]
                == k by {
                if k < n {
                    assert(front[k] == separator);
                    let i = choose|i: int| 0 < i < before.len() - 1 && #[trigger] before[i] == k;
                    assert(cuts[i] == k);
                } else {
                    assert(cuts[last] == k);
                }
            }
            assert forall|i: int, j: int|
                0 <= i && j == i + 1 && j < cuts.len() implies parts[i] == text.subrange(
                #[trigger] cuts[i] + 1,
                #[trigger] cuts[j],
            ) by {
                if j < before.len() {
                    assert(before[i] == cuts[i] && before[j] == cuts[j]);
                    assert(old_parts[i] == front.subrange(before[i] + 1, before[j]));
                    assert(before[j] <= before[last]) by {
                        if j < last {
                            assert(before[j] < before[last]);
                        }
                    }
                    assert(front.subrange(before[i] + 1, before[j]) =~= text.subrange(
                        cuts[i] + 1,
                        cuts[j],
                    ));
                } else {
                    assert(text.subrange(n + 1, n + 1) =~= Seq::<char>::empty());
                }
            }
            cuts
        } else {
            let cuts = before.update(last, text.len() as int);
            assert forall|i: int, j: int| 0 <= i < j < cuts.len() implies #[trigger] cuts[i]
                < #[trigger] cuts[j] by {
                assert(before[i] < before[j]);
            }
            assert forall|i: int| 0 < i < cuts.len() - 1 implies 0 <= #[trigger] cuts[i]
                < text.len() && text[cuts[i]] == separator by {
                assert(before[i] == cuts[i]);
                assert(front[before[i]] == text[cuts[i]]);
            }
            assert forall|k: int| 0 <= k < text.len() && #[trigger] text[k]
                == separator implies exists|i: int| 0 < i < cuts.len() - 1 && #[trigger] cuts[i]
                == k by {
                assert(front[k] == separator);
                let i = choose|i: int| 0 < i < before.len() - 1 && #[trigger] before[i] == k;
                assert(cuts[i] == k);
            }
            assert forall|i: int, j: int|
                0 <= i && j == i + 1 && j < cuts.len() implies parts[i] == text.subrange(
                #[trigger] cuts[i] + 1,
                #[trigger] cuts[j],
            ) by {
                assert(before[i] == cuts[i]);
                assert(before[i] < before[j]);
                assert(old_parts[i] == front.subrange(before[i] + 1, before[j]));
                if j < last {
                    assert(before[j] == cuts[j]);
                    assert(before[j] < before[last]);
                    assert(front.subrange(before[i] + 1, before[j]) =~= text.subrange(
                        cuts[i] + 1,
                        cuts[j],
                    ));
                } else {
                    assert(front.subrange(before[i] + 1, n).push(text[n]) =~= text.subrange(
                        cuts[i] + 1,
                        text.len() as int,
                    ));
                }
            }
            cuts
        }
    }
}

/// A stretch of a text that holds no separator, and is bounded by separators or the ends
/// of the text, is the part that begins after the cut before it.
proof fn stretch_is_part(
    text: Seq<char>,
    separator: char,
    cuts: Seq<int>,
    a: int,
    b: int,
) -> (i: int)
    requires
        cut_at(text, separator, cuts),
        0 <= a <= b <= text.len(),
        a == 0 || text[a - 1] == separator,
        b == text.len() || text[b] == separator,
        !text.subrange(a, b).contains(separator),
    ensures
        0 <= i < split_on(text, separator).len(),
        split_on(text, separator)[i] == text.subrange(a, b),
        cuts[i] == a - 1,
{
    let last = cuts.len() - 1;
    let i = if a == 0 {
        0
    } else {
        choose|i: int| 0 < i < cuts.len() - 1 && #[trigger] cuts[i] == a - 1
    };
    let next = cuts[i + 1];
    assert(cuts[i] < next);
    if next < b {
        assert(i + 1 < last);
        assert(text.subrange(a, b)[next - a] == separator);
    }
    if next > b {
        assert(next <= cuts[last]) by {
            if i + 1 < last {
                assert(cuts[i + 1] < cuts[last]);
            }
        }
        assert(text[b] == separator);
        let j = choose|j: int| 0 < j < cuts.len() - 1 && #[trigger] cuts[j] == b;
        if j <= i {
            if j < i {
                assert(cuts[j] < cuts[i]);
            }
        } else if j > i + 1 {
            assert(cuts[i + 1] < cuts[j]);
        }
    }
    i
}

/// A part is a stretch that holds no separator and is bounded by separators or the ends
/// of the text.
proof fn part_is_stretch(text: Seq<char>, separator: char, cuts: Seq<int>, i: int)
    requires
        cut_at(text, separator, cuts),
        0 <= i < split_on(text, separator).len(),
    ensures
        0 <= cuts[i] + 1 <= cuts[i + 1] <= text.len(),
        cuts[i] + 1 == 0 || text[cuts[i] + 1 - 1] == separator,
        cuts[i + 1] == text.len() || text[cuts[i + 1]] == separator,
        split_on(text, separator)[i] == text.subrange(cuts[i] + 1, cuts[i + 1]),
        !text.subrange(cuts[i] + 1, cuts[i + 1]).contains(separator),
{
    split_joins_back(text, separator);
    let last = cuts.len() - 1;
    assert(cuts[i] < cuts[i + 1]);
    if i > 0 {
        assert(cuts[0] < cuts[i]);
    }
    if i + 1 < last {
        assert(0 <= cuts[i + 1] < text.len());
    }
}

/// The outputs of a request, in plain terms. An empty request means every output, in the
/// order of the backgrounds. Any other request means the outputs whose names stand in it
/// between commas, or between a comma and an end of it, and that have a background; no
/// output comes twice.
pub proof fn a_request_means_the_outputs_that_stand_in_it(
    bgs: &Vec<Background>,
    outputs: &str,
    r: Vec<String>,
)
    requires
        call_ensures(get_real_outputs, (bgs, outputs), r),
    ensures
        outputs@.len() == 0 ==> {
            &&& r@.len() == bgs@.len()
            &&& forall|i: int| 0 <= i < r@.len() ==> (#[trigger] r@[i])@ == bgs@[i].output_name@
        },
        outputs@.len() > 0 ==> {
            &&& forall|o: Seq<char>| #[trigger]
                r.deep_view().contains(o) <==> {
                    &&& exists|i: int|
                        0 <= i < bgs@.len() && (#[trigger] bgs@[i]).output_name@ == o
                    &&& exists|a: int, b: int|
                        {
                            &&& 0 <= a <= b <= outputs@.len()
                            &&& a == 0 || outputs@[a - 1] == ','
                            &&& b == outputs@.len() || outputs@[b] == ','
                            &&& !o.contains(',')
                            &&& o == #[trigger] outputs@.subrange(a, b)
                        }
                }
            &&& forall|i: int, j: int|
                0 <= i < j < r@.len() ==> (#[trigger] r@[i])@ != (#[trigger] r@[j])@
        },
{
    let known = names(bgs.deep_view());
    let text = outputs@;
    let parts = split_on(text, ',');
    assert forall|i: int| 0 <= i < bgs@.len() implies known[i] == (
    #[trigger] bgs@[i]).output_name@ by {}
    if text.len() == 0 {
        assert forall|i: int| 0 <= i < r@.len() implies (
        #[trigger] r@[i])@ == bgs@[i].output_name@ by {
            assert(r.deep_view()[i] == known[i]);
        }
    } else {
        let cuts = cuts_of(text, ',');
        request_reaches_named_outputs(known, text);
        assert forall|o: Seq<char>| #[trigger] r.deep_view().contains(o) <==> {
            &&& exists|i: int| 0 <= i < bgs@.len() && (#[trigger] bgs@[i]).output_name@ == o
            &&& exists|a: int, b: int|
                {
                    &&& 0 <= a <= b <= text.len()
                    &&& a == 0 || text[a - 1] == ','
                    &&& b == text.len() || text[b] == ','
                    &&& !o.contains(',')
                    &&& o == #[trigger] text.subrange(a, b)
                }
        } by {
            if r.deep_view().contains(o) {
                let i = choose|i: int| 0 <= i < known.len() && known[i] == o;
                assert(bgs@[i].output_name@ == o);
                let k = choose|k: int| 0 <= k < parts.len() && parts[k] == o;
                part_is_stretch(text, ',', cuts, k);
                let a = cuts[k] + 1;
                let b = cuts[k + 1];
                assert(o == text.subrange(a, b));
            }
            if exists|i: int| 0 <= i < bgs@.len() && (#[trigger] bgs@[i]).output_name@ == o {
                let i = choose|i: int|
                    0 <= i < bgs@.len() && (#[trigger] bgs@[i]).output_name@ == o;
                assert(known[i] == o);
                assert(known.contains(o));
            }
            if exists|a: int, b: int|
                {
                    &&& 0 <= a <= b <= text.len()
                    &&& a == 0 || text[a - 1] == ','
                    &&& b == text.len() || text[b] == ','
                    &&& !o.contains(',')
                    &&& o == #[trigger] text.subrange(a, b)
                } {
                let (a, b) = choose|a: int, b: int|
                    {
                        &&& 0 <= a <= b <= text.len()
                        &&& a == 0 || text[a - 1] == ','
                        &&& b == text.len() || text[b] == ','
                        &&& !o.contains(',')
                        &&& o == #[trigger] text.subrange(a, b)
                    };
                let k = stretch_is_part(text, ',', cuts, a, b);
                assert(parts[k] == o);
                assert(parts.contains(o));
            }
        }
        assert forall|i: int, j: int| 0 <= i < j < r@.len() implies (#[trigger] r@[i])@ != (
        #[trigger] r@[j])@ by {
            assert(r.deep_view()[i] != r.deep_view()[j]);
        }
    }
}

/// The outputs of a request come in the order in which their names stand in it first: an
/// output that comes before another one stands in the request before every place where
/// the other one stands.
pub proof fn a_request_is_served_in_its_order(
    bgs: &Vec<Background>,
    outputs: &str,
    r: Vec<String>,
    i: int,
    j: int,
)
    requires
        call_ensures(get_real_outputs, (bgs, outputs), r),
        outputs@.len() > 0,
        0 <= i < j < r@.len(),
    ensures
        exists|a: int, b: int|
            {
                &&& 0 <= a <= b <= outputs@.len()
                &&& a == 0 || outputs@[a - 1] == ','
                &&& b == outputs@.len() || outputs@[b] == ','
                &&& r@[i]@ == #[trigger] outputs@.subrange(a, b)
                &&& forall|c: int, d: int|
                    {
                        &&& 0 <= c <= d <= outputs@.len()
                        &&& c == 0 || outputs@[c - 1] == ','
                        &&& d == outputs@.len() || outputs@[d] == ','
                        &&& r@[j]@ == #[trigger] outputs@.subrange(c, d)
                    } ==> a < c
            },
{
    let known = names(bgs.deep_view());
    let text = outputs@;
    let parts = split_on(text, ',');
    let cuts = cuts_of(text, ',');
    request_reaches_named_outputs(known, text);
    request_order_is_kept(known, text);
    assert(r.deep_view()[i] == r@[i]@ && r.deep_view()[j] == r@[j]@);
    assert(r.deep_view().contains(r@[i]@) && r.deep_view().contains(r@[j]@));
    parts.index_of_first_ensures(r@[i]@);
    parts.index_of_first_ensures(r@[j]@);
    let x = parts.index_of_first(r@[i]@)->0;
    let y = parts.index_of_first(r@[j]@)->0;
    part_is_stretch(text, ',', cuts, x);
    part_is_stretch(text, ',', cuts, y);
    let a = cuts[x] + 1;
    let b = cuts[x + 1];
    assert(r@[i]@ == text.subrange(a, b));
    assert forall|c: int, d: int|
        {
            &&& 0 <= c <= d <= text.len()
            &&& c == 0 || text[c - 1] == ','
            &&& d == text.len() || text[d] == ','
            &&& r@[j]@ == #[trigger] text.subrange(c, d)
        } implies a < c by {
        let k = stretch_is_part(text, ',', cuts, c, d);
        if k < y {
            assert(parts[k] == r@[j]@);
        }
        assert(cuts[x] < cuts[k]);
    }
}

/// A list holds a text exactly if one of its items is that text.
pub proof fn a_text_is_found_where_it_stands(list: &Vec<String>, text: &String, r: bool)
    requires
        call_ensures(contains_text, (list, text), r),
    ensures
        r <==> exists|i: int| 0 <= i < list@.len() && (#[trigger] list@[i])@ == text@,
{
    if r {
        let i = choose|i: int| 0 <= i < list.deep_view().len() && list.deep_view()[i] == text@;
        assert(list@[i]@ == text@);
    }
    if exists|i: int| 0 <= i < list@.len() && (#[trigger] list@[i])@ == text@ {
        let i = choose|i: int| 0 <= i < list@.len() && (#[trigger] list@[i])@ == text@;
        assert(list.deep_view()[i] == text@);
    }
}

} // verus!
