//! A pane with the definitions that the text at the cursor refers to.
use std::ops::Range;
use vstd::prelude::*;
use vstd::string::*;

verus! {

/// The definitions found in one buffer.
#[derive(Debug)]
pub struct BufferExcerpts {
    pub buffer: u64,
    pub ranges: Vec<Range<usize>>,
}

/// The ranges that belong to a buffer, in their order.
pub open spec fn ranges_in(links: Seq<(u64, Range<usize>)>, buffer: u64) -> Seq<Range<usize>>
    decreases links.len(),
{
    if links.len() == 0 {
        Seq::empty()
    } else {
        let before = ranges_in(links.drop_last(), buffer);
        if links.last().0 == buffer {
            before.push(links.last().1)
        } else {
            before
        }
    }
}

/// Whether groups hold exactly the ranges of each buffer that has any, each
/// buffer once.
pub open spec fn is_grouping(groups: Seq<BufferExcerpts>, links: Seq<(u64, Range<usize>)>) -> bool {
    &&& forall|g: int|
        0 <= g < groups.len() ==> (#[trigger] groups[g]).ranges@ == ranges_in(
            links,
            groups[g].buffer,
        )
    &&& forall|g: int, h: int|
        0 <= g < h < groups.len() ==> (#[trigger] groups[g]).buffer != (#[trigger] groups[h]).buffer
    &&& forall|k: int|
        0 <= k < links.len() ==> exists|g: int|
            0 <= g < groups.len() && (#[trigger] groups[g]).buffer == (#[trigger] links[k]).0
    &&& forall|g: int| 0 <= g < groups.len() ==> (#[trigger] groups[g]).ranges@.len() > 0
}

/// A buffer that no link mentions has no ranges.
proof fn lemma_no_ranges(links: Seq<(u64, Range<usize>)>, buffer: u64)
    requires
        forall|k: int| 0 <= k < links.len() ==> (#[trigger] links[k]).0 != buffer,
    ensures
        ranges_in(links, buffer).len() == 0,
    decreases links.len(),
{
    if links.len() > 0 {
        let shorter = links.drop_last();
        assert forall|k: int| 0 <= k < shorter.len() implies (#[trigger] shorter[k]).0
            != buffer by {
            assert(shorter[k] == links[k]);
        }
        lemma_no_ranges(shorter, buffer);
        assert(links[links.len() - 1].0 != buffer);
    }
}

/// Groups the ranges of links by their buffers.
pub fn group_excerpts(links: &Vec<(u64, Range<usize>)>) -> (groups: Vec<BufferExcerpts>)
    ensures
        is_grouping(groups@, links@),
{
    let mut groups: Vec<BufferExcerpts> = Vec::new();
    let mut n: usize = 0;
    while n < links.len()
        invariant
            n <= links@.len(),
            is_grouping(groups@, links@.take(n as int)),
        decreases links@.len() - n,
    {
        let buffer: u64 = links[n].0;
        let range = links[n].1.start..links[n].1.end;
        let ghost before = groups@;
        let ghost sofar = links@.take(n as int);
        let ghost now = links@.take(n + 1);
        proof {
            assert(now.drop_last() =~= sofar);
            assert(now.last() == links@[n as int]);
            assert(range == links@[n as int].1);
        }
        let mut g: usize = 0;
        while g < groups.len() && groups[g].buffer != buffer
            invariant
                g <= groups@.len(),
                groups@ == before,
                forall|h: int| 0 <= h < g ==> (#[trigger] before[h]).buffer != buffer,
            decreases groups@.len() - g,
        {
            g = g + 1;
        }
        if g < groups.len() {
            let mut group = groups.remove(g);
            group.ranges.push(range);
            groups.insert(g, group);
            assert(groups@.len() == before.len());
            assert forall|h: int| 0 <= h < before.len() implies (#[trigger] groups@[h]).buffer
                == before[h].buffer && (h != g ==> groups@[h] == before[h]) by {}
        } else {
            let mut ranges: Vec<Range<usize>> = Vec::new();
            ranges.push(range);
            groups.push(BufferExcerpts { buffer, ranges });
            proof {
                assert forall|k: int| 0 <= k < sofar.len() implies (#[trigger] sofar[k]).0
                    != buffer by {
                    let h = choose|h: int|
                        0 <= h < before.len() && (#[trigger] before[h]).buffer == sofar[k].0;
                    assert(before[h].buffer != buffer);
                }
                lemma_no_ranges(sofar, buffer);
                assert(groups@[g as int].ranges@ =~= ranges_in(now, buffer));
            }
        }
        proof {
            let after = groups@;
            assert forall|h: int| 0 <= h < after.len() implies (#[trigger] after[h]).ranges@
                == ranges_in(now, after[h].buffer) by {
                if h != g {
                    assert(after[h] == before[h]);
                    assert(before[h].buffer != buffer) by {
                        if h > g {
                            assert(before[g as int].buffer != before[h].buffer);
                        }
                    }
                } else if g < before.len() {
                    assert(after[h].ranges@ =~= before[h].ranges@.push(range));
                }
            }
            assert forall|k: int| 0 <= k < now.len() implies exists|h: int|
                0 <= h < after.len() && (#[trigger] after[h]).buffer == (#[trigger] now[k]).0 by {
                if k < sofar.len() {
                    assert(sofar[k] == now[k]);
                    let h = choose|h: int|
                        0 <= h < before.len() && (#[trigger] before[h]).buffer == sofar[k].0;
                    assert(after[h].buffer == now[k].0);
                } else {
                    assert(after[g as int].buffer == now[k].0);
                }
            }
            assert forall|h: int, i: int| 0 <= h < i < after.len() implies (
            #[trigger] after[h]).buffer != (#[trigger] after[i]).buffer by {
                if i < before.len() {
                    assert(before[h].buffer != before[i].buffer);
                } else {
                    assert(before[h].buffer != buffer);
                }
            }
        }
        n = n + 1;
    }
    assert(links@.take(n as int) =~= links@);
    groups
}

/// The links of all definitions that were found, in order. A request that failed
/// has none.
pub open spec fn all_links(definitions: Seq<Option<Vec<(u64, Range<usize>)>>>) -> Seq<
    (u64, Range<usize>),
>
    decreases definitions.len(),
{
    if definitions.len() == 0 {
        Seq::empty()
    } else {
        all_links(definitions.drop_last()) + match definitions.last() {
            Some(links) => links@,
            None => Seq::empty(),
        }
    }
}

/// What the pane shows of the definitions that requests have found: their ranges
/// by buffer.
pub fn excerpts_by_buffer(definitions: &Vec<Option<Vec<(u64, Range<usize>)>>>) -> (groups: Vec<
    BufferExcerpts,
>)
    ensures
        is_grouping(groups@, all_links(definitions@)),
{
    let mut links: Vec<(u64, Range<usize>)> = Vec::new();
    let mut n: usize = 0;
    assert(links@ =~= all_links(definitions@.take(0)));
    while n < definitions.len()
        invariant
            n <= definitions@.len(),
            links@ == all_links(definitions@.take(n as int)),
        decreases definitions@.len() - n,
    {
        proof {
            let now = definitions@.take(n + 1);
            assert(now.drop_last() =~= definitions@.take(n as int));
            assert(now.last() == definitions@[n as int]);
        }
        let ghost before = links@;
        if let Some(found) = &definitions[n] {
            let mut k: usize = 0;
            assert(before + found@.take(0) =~= before);
            while k < found.len()
                invariant
                    k <= found@.len(),
                    links@ == before + found@.take(k as int),
                decreases found@.len() - k,
            {
                links.push((found[k].0, found[k].1.start..found[k].1.end));
                k = k + 1;
                assert(links@ =~= before + found@.take(k as int));
            }
            assert(found@.take(k as int) =~= found@);
        } else {
            assert(before + Seq::<(u64, Range<usize>)>::empty() =~= before);
        }
        n = n + 1;
    }
    assert(definitions@.take(n as int) =~= definitions@);
    group_excerpts(&links)
}

/// The editor whose cursor the pane follows: that of the active item, unless the
/// item is the pane itself.
pub fn editor_to_follow(is_live_context: bool, editor: Option<u64>) -> (r: Option<u64>)
    ensures
        r == if is_live_context {
            None
        } else {
            editor
        },
{
    if is_live_context {
        None
    } else {
        editor
    }
}

/// The key context of the pane.
pub fn key_context(is_empty: bool) -> (r: &'static str)
    ensures
        r@ == if is_empty {
            "EmptyPane"@
        } else {
            "LiveContext"@
        },
{
    if is_empty {
        "EmptyPane"
    } else {
        "LiveContext"
    }
}

/// A link is among the ranges of its buffer.
proof fn lemma_link_in_ranges(links: Seq<(u64, Range<usize>)>, k: int)
    requires
        0 <= k < links.len(),
    ensures
        ranges_in(links, links[k].0).contains(links[k].1),
    decreases links.len(),
{
    let last = links.len() - 1;
    let buffer = links[k].0;
    let before = ranges_in(links.drop_last(), buffer);
    if k < last {
        lemma_link_in_ranges(links.drop_last(), k);
        assert(links.drop_last()[k] == links[k]);
        let j = choose|j: int| 0 <= j < before.len() && before[j] == links[k].1;
        assert(ranges_in(links, buffer)[j] == links[k].1);
    } else {
        assert(ranges_in(links, buffer)[before.len() as int] == links[k].1);
    }
}

/// Grouping loses no definition: each is shown in the group of its buffer.
pub proof fn law_every_link_is_shown(
    groups: Seq<BufferExcerpts>,
    links: Seq<(u64, Range<usize>)>,
    k: int,
)
    requires
        is_grouping(groups, links),
        0 <= k < links.len(),
    ensures
        exists|g: int|
            0 <= g < groups.len() && (#[trigger] groups[g]).buffer == links[k].0
                && groups[g].ranges@.contains(links[k].1),
{
    lemma_link_in_ranges(links, k);
    let g = choose|g: int| 0 <= g < groups.len() && (#[trigger] groups[g]).buffer == links[k].0;
    assert(groups[g].ranges@ == ranges_in(links, links[k].0));
}

/// The ranges of a buffer are those of all its links, in the order of the links.
pub proof fn law_ranges_of_buffer(links: Seq<(u64, Range<usize>)>, buffer: u64)
    ensures
        ranges_in(links, buffer) == links.filter(
            |link: (u64, Range<usize>)| link.0 == buffer,
        ).map_values(|link: (u64, Range<usize>)| link.1),
    decreases links.len(),
{
    reveal(Seq::filter);
    let belongs = |link: (u64, Range<usize>)| link.0 == buffer;
    let range = |link: (u64, Range<usize>)| link.1;
    if links.len() > 0 {
        law_ranges_of_buffer(links.drop_last(), buffer);
        let before = links.drop_last().filter(belongs);
        if belongs(links.last()) {
            assert(before.push(links.last()).map_values(range) =~= before.map_values(range).push(
                links.last().1,
            ));
        }
    } else {
        assert(links.filter(belongs).map_values(range) =~= Seq::empty());
    }
}

/// The links of every request that succeeded count, in the order of the requests.
pub proof fn law_all_definitions_count(definitions: Seq<Option<Vec<(u64, Range<usize>)>>>)
    ensures
        all_links(definitions) == definitions.map_values(
            |found: Option<Vec<(u64, Range<usize>)>>|
                if found is Some {
                    found->0@
                } else {
                    Seq::empty()
                },
        ).flatten(),
    decreases definitions.len(),
{
    let links = |found: Option<Vec<(u64, Range<usize>)>>|
        if found is Some {
            found->0@
        } else {
            Seq::empty()
        };
    if definitions.len() > 0 {
        law_all_definitions_count(definitions.drop_last());
        let before = definitions.drop_last().map_values(links);
        assert(definitions.map_values(links) =~= before.push(links(definitions.last())));
        before.lemma_flatten_push(links(definitions.last()));
    } else {
        assert(definitions.map_values(links) =~= Seq::empty());
    }
}

} // verus!
