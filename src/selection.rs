use vstd::prelude::*;

verus! {

/// The view of an optional extension.
pub open spec fn ext_view(e: Option<String>) -> Option<Seq<char>> {
    match e {
        Some(s) => Some(s@),
        None => None,
    }
}

/// The view of an optional list of extensions.
pub open spec fn filter_view(f: Option<Vec<String>>) -> Option<Seq<Seq<char>>> {
    match f {
        Some(v) => Some(v.deep_view()),
        None => None,
    }
}

/// Whether a file with extension `ext` is kept under `filter`: with no filter
/// every file is; with one, only a file whose extension the list names.
pub open spec fn keeps(ext: Option<Seq<char>>, filter: Option<Seq<Seq<char>>>) -> bool {
    match filter {
        None => true,
        Some(list) => match ext {
            Some(e) => list.contains(e),
            None => false,
        },
    }
}

/// The paths of `cands` that `filter` keeps, in their order.
pub open spec fn selected<P>(cands: Seq<(P, Option<String>)>, filter: Option<Seq<Seq<char>>>) -> Seq<P>
    decreases cands.len(),
{
    if cands.len() == 0 {
        Seq::empty()
    } else {
        let rest = selected(cands.drop_last(), filter);
        if keeps(ext_view(cands.last().1), filter) {
            rest.push(cands.last().0)
        } else {
            rest
        }
    }
}

/// Whether the walk over the tree applies ignore rules: only where no
/// extension filter is given.
pub fn uses_ignore_rules(extensions: &Option<Vec<String>>) -> (r: bool)
    ensures
        r == extensions is None,
{
    extensions.is_none()
}

fn is_listed(e: &String, list: &Vec<String>) -> (r: bool)
    ensures
        r == list.deep_view().contains(e@),
{
    let mut i: usize = 0;
    while i < list.len()
        invariant
            i <= list@.len(),
            forall|j: int| 0 <= j < i ==> (#[trigger] list.deep_view()[j]) != e@,
        decreases list@.len() - i,
    {
        if list[i] == *e {
            assert(list.deep_view()[i as int] == e@);
            return true;
        }
        i += 1;
    }
    false
}

fn is_kept(ext: &Option<String>, extensions: &Option<Vec<String>>) -> (r: bool)
    ensures
        r == keeps(ext_view(*ext), filter_view(*extensions)),
{
    match extensions {
        None => true,
        Some(list) => match ext {
            Some(e) => is_listed(e, list),
            None => false,
        },
    }
}

/// Keeps the candidate files that the extension filter admits, in their order:
/// with no filter all of them; with one, those whose extension it lists (a file
/// without an extension never). Each candidate comes with its extension. No
/// file kept, for whatever reason, gives `None`.
pub fn filter_files<P>(candidates: Vec<(P, Option<String>)>, extensions: &Option<Vec<String>>) -> (r:
    Option<Vec<P>>)
    ensures
        r is None <==> selected(candidates@, filter_view(*extensions)).len() == 0,
        r matches Some(v) ==> v@ == selected(candidates@, filter_view(*extensions)),
{
    let ghost cands = candidates@;
    let ghost filter = filter_view(*extensions);
    let mut files: Vec<P> = Vec::new();
    for c in it: candidates
        invariant
            it.seq() == cands,
            filter == filter_view(*extensions),
            files@ == selected(cands.take(it.index() as int), filter),
    {
        let ghost i = it.index() as int;
        assert(cands.take(i + 1).drop_last() =~= cands.take(i));
        assert(cands.take(i + 1).last() == c);
        let (path, ext) = c;
        if is_kept(&ext, extensions) {
            files.push(path);
        }
    }
    assert(cands.take(cands.len() as int) =~= cands);
    if files.len() == 0 {
        None
    } else {
        Some(files)
    }
}

} // verus!

verus! {

/// Under an extension filter, every file kept is a candidate whose extension
/// the filter lists.
pub proof fn lemma_kept_extensions_listed<P>(cands: Seq<(P, Option<String>)>, list: Seq<Seq<char>>)
    ensures
        forall|i: int|
            0 <= i < selected(cands, Some(list)).len() ==> exists|j: int|
                0 <= j < cands.len() && cands[j].0 == #[trigger] selected(cands, Some(list))[i]
                    && cands[j].1 is Some && list.contains(cands[j].1->0@),
    decreases cands.len(),
{
    if cands.len() > 0 {
        let rest = cands.drop_last();
        lemma_kept_extensions_listed(rest, list);
        let sel = selected(cands, Some(list));
        let rsel = selected(rest, Some(list));
        assert forall|i: int| 0 <= i < sel.len() implies exists|j: int|
            0 <= j < cands.len() && cands[j].0 == #[trigger] sel[i] && cands[j].1 is Some && list.contains(cands[j].1->0@) by {
            if i < rsel.len() {
                assert(sel[i] == rsel[i]);
                let j = choose|j: int|
                    0 <= j < rest.len() && rest[j].0 == #[trigger] rsel[i] && rest[j].1 is Some && list.contains(rest[j].1->0@);
                assert(cands[j] == rest[j]);
            } else {
                assert(sel[i] == cands.last().0);
                let j = cands.len() - 1;
                assert(cands[j] == cands.last());
            }
        }
    }
}

/// Without an extension filter, every candidate is kept, in order.
pub proof fn lemma_no_filter_keeps_all<P>(cands: Seq<(P, Option<String>)>)
    ensures
        selected(cands, None) == cands.map_values(|c: (P, Option<String>)| c.0),
    decreases cands.len(),
{
    if cands.len() > 0 {
        lemma_no_filter_keeps_all(cands.drop_last());
        assert(selected(cands, None) =~= cands.map_values(|c: (P, Option<String>)| c.0));
    } else {
        assert(selected(cands, None) =~= cands.map_values(|c: (P, Option<String>)| c.0));
    }
}

} // verus!
