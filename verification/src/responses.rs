//! What the vault server answers: tags with their children, folders with their
//! note counts, links as the client sees them, and the resources of notes and
//! sections.
use vstd::prelude::*;

use crate::core_logic::pair_keys;
use crate::index::{children_of, find_direct_children};
use crate::links::{Link, LinkView};
use crate::note::{fm_tags, Frontmatter};
use crate::order::{insert_sorted, strictly_sorted};
use crate::sections::{section_views, Section, SectionView};
use crate::section_store::{join_slash, join_slash_exec};
use crate::order::{lex_lt, lemma_lex_asymmetric, lemma_lex_total, lemma_lex_transitive, lex_lt_exec, texts};
use crate::revisions::{PathKey, RevisionToken};
use crate::text::{chars_of, owned};
use crate::vault_path::{parent_spec, VaultPath};

verus! {

// ---------------------------------------------------------------------------
// Response types
// ---------------------------------------------------------------------------

/// A tag with its count, its direct children and, when asked for, its notes.
#[derive(Debug)]
pub struct TagInfo {
    pub tag: String,
    pub count: usize,
    pub children: Vec<String>,
    pub notes: Option<Vec<String>>,
}

/// The tags of the vault.
#[derive(Debug)]
pub struct GetTagsResponse {
    pub tags: Vec<TagInfo>,
}

/// A summary of the vault, or of one of its folders.
#[derive(Debug)]
pub struct VaultInfo {
    pub name: String,
    pub folder: Option<VaultPath>,
    pub note_count: usize,
    pub tag_count: usize,
    pub storage_type: String,
}

/// A tag of a folder with its count and direct children.
#[derive(Debug)]
pub struct VaultTagInfo {
    pub tag: String,
    pub count: usize,
    pub children: Vec<String>,
}

/// The tags of the vault or of one of its folders.
#[derive(Debug)]
pub struct VaultTagsResponse {
    pub folder: Option<VaultPath>,
    pub tags: Vec<VaultTagInfo>,
}

/// A folder with the number of notes directly in it.
#[derive(Debug)]
pub struct FolderInfo {
    pub path: VaultPath,
    pub note_count: usize,
}

/// The folders of the vault or of one of its folders.
#[derive(Debug)]
pub struct VaultFoldersResponse {
    pub folder: Option<VaultPath>,
    pub folders: Vec<FolderInfo>,
}

/// The answer to a write: the path written and its new token.
#[derive(Debug)]
pub struct WriteNoteResponse {
    pub path: String,
    pub revision: RevisionToken,
}

/// A note as a resource.
#[derive(Debug)]
pub struct NoteResourceResponse {
    pub path: String,
    pub title: Option<String>,
    pub revision: RevisionToken,
    pub frontmatter: Option<Frontmatter>,
    pub content: String,
    pub token_count: usize,
    pub tags: Vec<String>,
}

/// A section as a resource.
#[derive(Debug)]
pub struct SectionResourceResponse {
    pub path: String,
    pub note_path: String,
    pub heading_path: Vec<String>,
    pub revision: RevisionToken,
    pub content: String,
    pub tags: Vec<String>,
    pub links: Vec<LinkInfo>,
    pub token_count: usize,
}

/// A tag with its count, its direct children and the notes that have it.
#[derive(Debug)]
pub struct TagEntry {
    pub tag: String,
    pub count: usize,
    pub children: Vec<String>,
    pub note_paths: Vec<VaultPath>,
}

/// A link as the client sees it: its kind, its target and what it displays.
#[derive(Debug)]
pub struct LinkInfo {
    pub link_type: String,
    pub target: String,
    pub display: Option<String>,
}

impl View for LinkInfo {
    type V = (Seq<char>, Seq<char>, Option<Seq<char>>);

    open spec fn view(&self) -> (Seq<char>, Seq<char>, Option<Seq<char>>) {
        (self.link_type@, self.target@, crate::links::opt_view(self.display))
    }
}

/// The client's view of a link: a wikilink's target and alias, a markdown
/// link's URL and text, an autolink's URL or address.
pub open spec fn link_info_of(l: LinkView) -> (Seq<char>, Seq<char>, Option<Seq<char>>) {
    match l {
        LinkView::Wiki(w) => ("wiki"@, w.target, w.alias),
        LinkView::Markdown(m) => ("markdown"@, m.url, Some(m.text)),
        LinkView::Url(u) => ("url"@, u, None),
        LinkView::Email(e) => ("email"@, e, None),
    }
}

fn opt_clone(o: &Option<String>) -> (r: Option<String>)
    ensures
        crate::links::opt_view(r) == crate::links::opt_view(*o),
{
    match o {
        Some(x) => Some(x.clone()),
        None => None,
    }
}

impl LinkInfo {
    /// The client's view of `link`.
    pub fn of_link(link: &Link) -> (r: LinkInfo)
        ensures
            r@ == link_info_of(link@),
    {
        match link {
            Link::Wiki(w) => LinkInfo { link_type: owned("wiki"), target: w.target.clone(), display: opt_clone(&w.alias) },
            Link::Markdown(m) => LinkInfo {
                link_type: owned("markdown"),
                target: m.url.clone(),
                display: Some(m.text.clone()),
            },
            Link::Url(u) => LinkInfo { link_type: owned("url"), target: u.url.clone(), display: None },
            Link::Email(e) => LinkInfo { link_type: owned("email"), target: e.address.clone(), display: None },
        }
    }
}

impl<'a> From<&'a Link> for LinkInfo {
    fn from(link: &'a Link) -> (r: LinkInfo)
        ensures
            r@ == link_info_of(link@),
    {
        LinkInfo::of_link(link)
    }
}

impl<'a> vstd::std_specs::convert::FromSpecImpl<&'a Link> for LinkInfo {
    open spec fn obeys_from_spec() -> bool {
        false
    }

    /// Not used: `from` states its result through the view.
    closed spec fn from_spec(link: &'a Link) -> LinkInfo {
        vstd::pervasive::arbitrary()
    }
}

// ---------------------------------------------------------------------------
// Tags
// ---------------------------------------------------------------------------

/// Each counted tag with its count and its direct children among the counted tags.
pub fn tag_infos(counts: &Vec<(String, usize)>) -> (r: Vec<TagInfo>)
    ensures
        r@.len() == counts@.len(),
        forall|i: int|
            0 <= i < r@.len() ==> (#[trigger] r@[i]).tag@ == counts@[i].0@ && r@[i].count == counts@[i].1 && texts(
                r@[i].children@,
            ) == children_of(counts@[i].0@, pair_keys(counts@)) && r@[i].notes is None,
{
    let all = tag_names(counts);
    let mut out: Vec<TagInfo> = Vec::new();
    let mut i: usize = 0;
    while i < counts.len()
        invariant
            i <= counts@.len(),
            texts(all@) == pair_keys(counts@),
            out@.len() == i,
            forall|j: int|
                0 <= j < i ==> (#[trigger] out@[j]).tag@ == counts@[j].0@ && out@[j].count == counts@[j].1 && texts(
                    out@[j].children@,
                ) == children_of(counts@[j].0@, pair_keys(counts@)) && out@[j].notes is None,
        decreases counts.len() - i,
    {
        let tag = counts[i].0.clone();
        let children = find_direct_children(tag.as_str(), &all);
        out.push(TagInfo { tag, count: counts[i].1, children, notes: None });
        i = i + 1;
    }
    out
}

/// Each counted tag of a folder with its count and its direct children.
pub fn vault_tag_infos(counts: &Vec<(String, usize)>) -> (r: Vec<VaultTagInfo>)
    ensures
        r@.len() == counts@.len(),
        forall|i: int|
            0 <= i < r@.len() ==> (#[trigger] r@[i]).tag@ == counts@[i].0@ && r@[i].count == counts@[i].1 && texts(
                r@[i].children@,
            ) == children_of(counts@[i].0@, pair_keys(counts@)),
{
    let all = tag_names(counts);
    let mut out: Vec<VaultTagInfo> = Vec::new();
    let mut i: usize = 0;
    while i < counts.len()
        invariant
            i <= counts@.len(),
            texts(all@) == pair_keys(counts@),
            out@.len() == i,
            forall|j: int|
                0 <= j < i ==> (#[trigger] out@[j]).tag@ == counts@[j].0@ && out@[j].count == counts@[j].1 && texts(
                    out@[j].children@,
                ) == children_of(counts@[j].0@, pair_keys(counts@)),
        decreases counts.len() - i,
    {
        let tag = counts[i].0.clone();
        let children = find_direct_children(tag.as_str(), &all);
        out.push(VaultTagInfo { tag, count: counts[i].1, children });
        i = i + 1;
    }
    out
}

fn tag_names(counts: &Vec<(String, usize)>) -> (r: Vec<String>)
    ensures
        texts(r@) == pair_keys(counts@),
{
    let mut out: Vec<String> = Vec::new();
    let mut i: usize = 0;
    while i < counts.len()
        invariant
            i <= counts@.len(),
            out@.len() == i,
            forall|j: int| 0 <= j < i ==> (#[trigger] out@[j])@ == counts@[j].0@,
        decreases counts.len() - i,
    {
        out.push(counts[i].0.clone());
        i = i + 1;
    }
    assert(texts(out@) =~= pair_keys(counts@));
    out
}

// ---------------------------------------------------------------------------
// Folders
// ---------------------------------------------------------------------------

/// The parents of the paths that have one, in order.
pub open spec fn parents_of(ps: Seq<PathKey>) -> Seq<PathKey>
    decreases ps.len(),
{
    if ps.len() == 0 {
        Seq::empty()
    } else {
        parents_of(ps.drop_last()) + match parent_spec(ps.last()) {
            Some(p) => seq![p],
            None => Seq::empty(),
        }
    }
}

pub open spec fn folder_keys(fs: Seq<FolderInfo>) -> Seq<PathKey> {
    fs.map_values(|f: FolderInfo| f.path@)
}

/// The folders are in order of their texts.
pub open spec fn folders_sorted(fs: Seq<FolderInfo>) -> bool {
    forall|i: int, j: int| 0 <= i < j < fs.len() ==> !lex_lt((#[trigger] fs[j]).path@.1, (#[trigger] fs[i]).path@.1)
}

/// What `folder_counts` keeps while it goes through the parents `ps`.
pub open spec fn counted(fs: Seq<FolderInfo>, ps: Seq<PathKey>) -> bool {
    &&& folder_keys(fs).no_duplicates()
    &&& folders_sorted(fs)
    &&& forall|i: int| 0 <= i < fs.len() ==> (#[trigger] fs[i]).note_count == ps.to_multiset().count(fs[i].path@)
    &&& forall|k: PathKey| #[trigger] ps.to_multiset().count(k) > 0 ==> folder_keys(fs).contains(k)
}

/// The position of the folder `p` in `fs`, if it is there.
fn find_folder(fs: &Vec<FolderInfo>, p: &VaultPath) -> (r: Option<usize>)
    ensures
        match r {
            Some(i) => i < fs@.len() && fs@[i as int].path@ == p@,
            None => !folder_keys(fs@).contains(p@),
        },
{
    let mut i: usize = 0;
    while i < fs.len()
        invariant
            i <= fs@.len(),
            forall|j: int| 0 <= j < i ==> (#[trigger] fs@[j]).path@ != p@,
        decreases fs.len() - i,
    {
        if fs[i].path.same_as(p) {
            return Some(i);
        }
        i = i + 1;
    }
    proof {
        if folder_keys(fs@).contains(p@) {
            let j = choose|j: int| 0 <= j < folder_keys(fs@).len() && folder_keys(fs@)[j] == p@;
            assert(fs@[j].path@ == p@);
        }
    }
    None
}

/// The first position whose folder text is after `p`'s.
fn insert_position(fs: &Vec<FolderInfo>, p: &VaultPath) -> (k: usize)
    requires
        folders_sorted(fs@),
    ensures
        k <= fs@.len(),
        forall|j: int| 0 <= j < k ==> !lex_lt(p@.1, (#[trigger] fs@[j]).path@.1),
        forall|j: int| k <= j < fs@.len() ==> lex_lt(p@.1, (#[trigger] fs@[j]).path@.1),
{
    let pv = chars_of(p.as_str());
    let mut k: usize = 0;
    while k < fs.len()
        invariant
            k <= fs@.len(),
            folders_sorted(fs@),
            pv@ == p@.1,
            forall|j: int| 0 <= j < k ==> !lex_lt(p@.1, (#[trigger] fs@[j]).path@.1),
        decreases fs.len() - k,
    {
        let fv = chars_of(fs[k].path.as_str());
        if lex_lt_exec(&pv, &fv) {
            proof {
                assert forall|j: int| k <= j < fs@.len() implies lex_lt(p@.1, (#[trigger] fs@[j]).path@.1) by {
                    if j > k {
                        assert(!lex_lt(fs@[j].path@.1, fs@[k as int].path@.1));
                        lemma_lex_total(fs@[j].path@.1, fs@[k as int].path@.1);
                        if fs@[j].path@.1 != fs@[k as int].path@.1 {
                            lemma_lex_transitive(p@.1, fs@[k as int].path@.1, fs@[j].path@.1);
                        }
                    }
                }
            }
            return k;
        }
        k = k + 1;
    }
    k
}

/// The parent folders of the paths, each with the number of paths directly in
/// it, in order of their texts.
pub fn folder_counts(paths: &Vec<VaultPath>) -> (r: Vec<FolderInfo>)
    ensures
        counted(r@, parents_of(crate::section_store::path_views(paths@))),
{
    broadcast use vstd::seq_lib::group_to_multiset_ensures;
    broadcast use vstd::multiset::group_multiset_axioms;

    let ghost ps = crate::section_store::path_views(paths@);
    let mut out: Vec<FolderInfo> = Vec::new();
    let mut i: usize = 0;
    proof {
        assert(parents_of(ps.take(0)) =~= Seq::<PathKey>::empty());
        assert(folder_keys(out@) =~= Seq::<PathKey>::empty());
    }
    while i < paths.len()
        invariant
            i <= paths@.len(),
            ps == crate::section_store::path_views(paths@),
            parents_of(ps.take(i as int)).len() <= i,
            counted(out@, parents_of(ps.take(i as int))),
        decreases paths.len() - i,
    {
        let ghost before = out@;
        let ghost seen = parents_of(ps.take(i as int));
        assert(ps.take(i + 1).drop_last() =~= ps.take(i as int));
        assert(ps.take(i + 1).last() == paths@[i as int]@);
        match paths[i].parent() {
            None => {
                assert(parents_of(ps.take(i + 1)) =~= seen);
            },
            Some(p) => {
                let ghost now = parents_of(ps.take(i + 1));
                assert(now =~= seen.push(p@));
                proof {
                    vstd::seq_lib::to_multiset_build(seen, p@);
                    vstd::seq_lib::to_multiset_len(seen);
                    vstd::multiset::axiom_count_le_len(seen.to_multiset(), p@);
                    vstd::multiset::lemma_insert_increases_count_by_1(seen.to_multiset(), p@);
                }
                match find_folder(&out, &p) {
                    Some(j) => {
                        let c = out[j].note_count;
                        assert(c == seen.to_multiset().count(p@));
                        assert(c + 1 <= i + 1);
                        let info = FolderInfo { path: out[j].path.clone(), note_count: c + 1 };
                        out.set(j, info);
                        proof {
                            assert(folder_keys(out@) =~= folder_keys(before));
                            assert forall|a: int| 0 <= a < out@.len() implies (#[trigger] out@[a]).note_count
                                == now.to_multiset().count(out@[a].path@) by {
                                if a != j {
                                    assert(out@[a] == before[a]);
                                    assert(folder_keys(before)[a] != folder_keys(before)[j as int]);
                                }
                            }
                            assert(folders_sorted(out@)) by {
                                assert forall|a: int, b: int| 0 <= a < b < out@.len() implies !lex_lt(
                                    (#[trigger] out@[b]).path@.1,
                                    (#[trigger] out@[a]).path@.1,
                                ) by {
                                    assert(out@[a].path@ == before[a].path@);
                                    assert(out@[b].path@ == before[b].path@);
                                }
                            }
                            assert forall|k: PathKey| #[trigger] now.to_multiset().count(k) > 0 implies folder_keys(
                                out@,
                            ).contains(k) by {
                                if k != p@ {
                                    assert(seen.to_multiset().count(k) > 0);
                                } else {
                                    assert(folder_keys(out@)[j as int] == p@);
                                }
                            }
                        }
                    },
                    None => {
                        let k = insert_position(&out, &p);
                        proof {
                            assert(seen.to_multiset().count(p@) == 0);
                        }
                        out.insert(k, FolderInfo { path: p, note_count: 1 });
                        proof {
                            let pk = out@[k as int].path@;
                            assert(folder_keys(out@) =~= folder_keys(before).insert(k as int, pk));
                            assert forall|a: int| 0 <= a < out@.len() implies (#[trigger] out@[a]).note_count
                                == now.to_multiset().count(out@[a].path@) by {
                                if a < k {
                                    assert(out@[a] == before[a]);
                                    assert(folder_keys(before)[a] == before[a].path@);
                                } else if a > k {
                                    assert(out@[a] == before[a - 1]);
                                    assert(folder_keys(before)[a - 1] == before[a - 1].path@);
                                }
                            }
                            assert(folder_keys(out@).no_duplicates()) by {
                                assert forall|a: int, b: int| 0 <= a < b < out@.len() implies folder_keys(out@)[a]
                                    != folder_keys(out@)[b] by {
                                    if a == k {
                                        assert(folder_keys(before).contains(folder_keys(out@)[b]));
                                    } else if b == k {
                                        assert(folder_keys(before).contains(folder_keys(out@)[a]));
                                    } else {
                                        let a0 = if a < k { a } else { a - 1 };
                                        let b0 = if b < k { b } else { b - 1 };
                                        assert(folder_keys(out@)[a] == folder_keys(before)[a0]);
                                        assert(folder_keys(out@)[b] == folder_keys(before)[b0]);
                                    }
                                }
                            }
                            assert(folders_sorted(out@)) by {
                                assert forall|a: int, b: int| 0 <= a < b < out@.len() implies !lex_lt(
                                    (#[trigger] out@[b]).path@.1,
                                    (#[trigger] out@[a]).path@.1,
                                ) by {
                                    if a == k {
                                        assert(out@[b] == before[b - 1]);
                                        lemma_lex_asymmetric(pk.1, before[b - 1].path@.1);
                                    } else if b == k {
                                        assert(out@[a] == before[a]);
                                    } else {
                                        let a0 = if a < k { a } else { a - 1 };
                                        let b0 = if b < k { b } else { b - 1 };
                                        assert(out@[a] == before[a0]);
                                        assert(out@[b] == before[b0]);
                                    }
                                }
                            }
                            assert forall|q: PathKey| #[trigger] now.to_multiset().count(q) > 0 implies folder_keys(
                                out@,
                            ).contains(q) by {
                                if q != pk {
                                    assert(seen.to_multiset().count(q) > 0);
                                    let a = choose|a: int| 0 <= a < folder_keys(before).len() && folder_keys(before)[a] == q;
                                    if a < k {
                                        assert(folder_keys(out@)[a] == q);
                                    } else {
                                        assert(folder_keys(out@)[a + 1] == q);
                                    }
                                } else {
                                    assert(folder_keys(out@)[k as int] == q);
                                }
                            }
                        }
                    },
                }
            },
        }
        i = i + 1;
    }
    assert(ps.take(i as int) =~= ps);
    out
}

// ---------------------------------------------------------------------------
// Sections
// ---------------------------------------------------------------------------

/// The names of tags (their texts without the leading `#`).
pub open spec fn tag_names_of(ts: Seq<Seq<char>>) -> Seq<Seq<char>> {
    ts.map_values(|t: Seq<char>| t.drop_first())
}

/// The tags of a section as a resource: the note's frontmatter tags with the
/// names of the section's own tags, sorted, each once.
pub fn section_tag_list(frontmatter: &Option<Frontmatter>, section: &Section) -> (r: Vec<String>)
    ensures
        strictly_sorted(texts(r@)),
        forall|x: Seq<char>|
            texts(r@).contains(x) <==> (fm_tags(*frontmatter).contains(x) || tag_names_of(section@.tags).contains(x)),
{
    let mut out: Vec<String> = Vec::new();
    let empty: Vec<String> = Vec::new();
    let fm: &Vec<String> = match frontmatter {
        Some(f) => &f.tags,
        None => &empty,
    };
    assert(texts(fm@) == fm_tags(*frontmatter));
    let mut i: usize = 0;
    while i < fm.len()
        invariant
            i <= fm@.len(),
            strictly_sorted(texts(out@)),
            forall|x: Seq<char>| texts(out@).contains(x) <==> texts(fm@).take(i as int).contains(x),
        decreases fm.len() - i,
    {
        let ghost before = texts(out@);
        insert_sorted(&mut out, fm[i].clone());
        proof {
            assert(texts(fm@).take(i + 1) =~= texts(fm@).take(i as int).push(fm@[i as int]@));
            assert forall|x: Seq<char>| texts(out@).contains(x) <==> texts(fm@).take(i + 1).contains(x) by {
                crate::core_logic::lemma_push_contains(texts(fm@).take(i as int), fm@[i as int]@, x);
            }
        }
        i = i + 1;
    }
    assert(texts(fm@).take(i as int) =~= texts(fm@));
    let ghost names = tag_names_of(section@.tags);
    let mut j: usize = 0;
    while j < section.tags.len()
        invariant
            j <= section.tags@.len(),
            names == tag_names_of(section@.tags),
            names.len() == section.tags@.len(),
            strictly_sorted(texts(out@)),
            forall|x: Seq<char>| texts(out@).contains(x) <==> (texts(fm@).contains(x) || names.take(j as int).contains(x)),
        decreases section.tags.len() - j,
    {
        let name = owned(section.tags[j].name());
        assert(name@ == names[j as int]);
        insert_sorted(&mut out, name);
        proof {
            assert(names.take(j + 1) =~= names.take(j as int).push(names[j as int]));
            assert forall|x: Seq<char>| texts(out@).contains(x) <==> (texts(fm@).contains(x) || names.take(j + 1).contains(x)) by {
                crate::core_logic::lemma_push_contains(names.take(j as int), names[j as int], x);
            }
        }
        j = j + 1;
    }
    assert(names.take(j as int) =~= names);
    out
}

/// The heading paths of the sections that have one, each joined with `/`.
pub open spec fn available_sections_spec(ss: Seq<SectionView>) -> Seq<Seq<char>>
    decreases ss.len(),
{
    if ss.len() == 0 {
        Seq::empty()
    } else if ss.last().heading_path.len() > 0 {
        available_sections_spec(ss.drop_last()).push(join_slash(ss.last().heading_path))
    } else {
        available_sections_spec(ss.drop_last())
    }
}

/// The sections a note offers, named by their heading paths.
pub fn available_sections(sections: &Vec<Section>) -> (r: Vec<String>)
    ensures
        texts(r@) == available_sections_spec(section_views(sections@)),
{
    let mut out: Vec<String> = Vec::new();
    let mut i: usize = 0;
    while i < sections.len()
        invariant
            i <= sections@.len(),
            texts(out@) == available_sections_spec(section_views(sections@).take(i as int)),
        decreases sections.len() - i,
    {
        let ghost before = texts(out@);
        assert(section_views(sections@).take(i + 1).drop_last() =~= section_views(sections@).take(i as int));
        let hp = &sections[i].heading_path;
        assert(texts(hp@) =~= section_views(sections@)[i as int].heading_path);
        if hp.len() > 0 {
            let joined = join_slash_exec(hp);
            out.push(joined);
            assert(texts(out@) =~= before.push(texts(out@).last()));
        }
        i = i + 1;
    }
    assert(section_views(sections@).take(i as int) =~= section_views(sections@));
    out
}

/// The resource path `note#section`.
pub fn section_resource_path(note_path: &str, section_path: &str) -> (r: String)
    ensures
        r@ == note_path@ + seq!['#'] + section_path@,
{
    let mut s = owned(note_path);
    s.push('#');
    s.append(section_path);
    s
}

} // verus!
