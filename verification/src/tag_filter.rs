//! Selecting sections by the tags they carry: the ones that have one of the
//! wanted tags and none of the unwanted ones.
use vstd::prelude::*;

use crate::core_logic::text_in;
use crate::order::texts;
use crate::revisions::PathKey;
use crate::section_store::path_views;
use crate::vault_path::VaultPath;

verus! {

/// One of the tags `a` is among `b`.
pub open spec fn shares_tag(a: Seq<Seq<char>>, b: Seq<Seq<char>>) -> bool {
    exists|i: int| 0 <= i < a.len() && b.contains(#[trigger] a[i])
}

/// A section with the tags `tags` is kept: it has one of the wanted tags
/// (when some are given) and none of the unwanted ones (when some are given).
pub open spec fn tag_filter_keeps(
    tags: Seq<Seq<char>>,
    wanted: Option<Seq<Seq<char>>>,
    unwanted: Option<Seq<Seq<char>>>,
) -> bool {
    &&& match wanted {
        Some(inc) => inc.len() == 0 || shares_tag(tags, inc),
        None => true,
    }
    &&& match unwanted {
        Some(exc) => !shares_tag(tags, exc),
        None => true,
    }
}

/// The paths of the sections (path and tags) that the filter keeps, in order.
pub open spec fn tag_filtered(
    sections: Seq<(PathKey, Seq<Seq<char>>)>,
    wanted: Option<Seq<Seq<char>>>,
    unwanted: Option<Seq<Seq<char>>>,
) -> Seq<PathKey>
    decreases sections.len(),
{
    if sections.len() == 0 {
        Seq::empty()
    } else {
        let prev = tag_filtered(sections.drop_last(), wanted, unwanted);
        if tag_filter_keeps(sections.last().1, wanted, unwanted) {
            prev.push(sections.last().0)
        } else {
            prev
        }
    }
}

/// The sections as paths and tag texts.
pub open spec fn tagged_views(sections: Seq<(VaultPath, Vec<String>)>) -> Seq<(PathKey, Seq<Seq<char>>)> {
    sections.map_values(|s: (VaultPath, Vec<String>)| (s.0@, texts(s.1@)))
}

pub open spec fn opt_texts(o: Option<&Vec<String>>) -> Option<Seq<Seq<char>>> {
    match o {
        Some(v) => Some(texts(v@)),
        None => None,
    }
}

/// Whether one of `tags` is among `set`.
fn shares(tags: &Vec<String>, set: &Vec<String>) -> (b: bool)
    ensures
        b == shares_tag(texts(tags@), texts(set@)),
{
    let mut i: usize = 0;
    while i < tags.len()
        invariant
            i <= tags@.len(),
            forall|j: int| 0 <= j < i ==> !texts(set@).contains(#[trigger] texts(tags@)[j]),
        decreases tags.len() - i,
    {
        if text_in(set, &tags[i]) {
            assert(texts(set@).contains(texts(tags@)[i as int]));
            return true;
        }
        i = i + 1;
    }
    false
}

/// The paths of the sections that have one of the `wanted` tags (when that
/// list is given and not empty) and none of the `unwanted` tags (when given),
/// in the order of `sections`.
pub fn filter_tags(
    sections: &Vec<(VaultPath, Vec<String>)>,
    wanted: Option<&Vec<String>>,
    unwanted: Option<&Vec<String>>,
) -> (r: Vec<VaultPath>)
    ensures
        path_views(r@) == tag_filtered(tagged_views(sections@), opt_texts(wanted), opt_texts(unwanted)),
{
    let ghost sv = tagged_views(sections@);
    let ghost inc = opt_texts(wanted);
    let ghost exc = opt_texts(unwanted);
    let mut out: Vec<VaultPath> = Vec::new();
    let mut i: usize = 0;
    while i < sections.len()
        invariant
            i <= sections@.len(),
            sv == tagged_views(sections@),
            inc == opt_texts(wanted),
            exc == opt_texts(unwanted),
            path_views(out@) == tag_filtered(sv.take(i as int), inc, exc),
        decreases sections.len() - i,
    {
        let tags = &sections[i].1;
        let is_wanted = match wanted {
            Some(set) => set.len() == 0 || shares(tags, set),
            None => true,
        };
        let is_unwanted = match unwanted {
            Some(set) => shares(tags, set),
            None => false,
        };
        proof {
            assert(sv.take(i + 1).drop_last() =~= sv.take(i as int));
            assert(sv.take(i + 1).last() == sv[i as int]);
            assert(sv[i as int] == (sections@[i as int].0@, texts(tags@)));
        }
        if is_wanted && !is_unwanted {
            let ghost before = path_views(out@);
            out.push(sections[i].0.clone());
            assert(path_views(out@) =~= before.push(sections@[i as int].0@));
        }
        i = i + 1;
    }
    assert(sv.take(i as int) =~= sv);
    out
}

} // verus!
