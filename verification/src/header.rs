//! The archive header: one item per archived file, carrying its source path,
//! its archive-internal name, and — once the data blocks' sizes are known —
//! the offset and length of its compressed data. This module builds the item
//! list from a job's content rules and serializes each item's header record.

use vstd::prelude::*;
use vstd::bytes::*;
use vstd::string::StringExecFns;
use vstd::utf8::encode_utf8;
use crate::config::{Config, ContentItem, ContentItemView, content_views};
use crate::paths::{
    FsPath, PathView, join_path, parse_path, path_relative_from, spec_join, spec_parse_path,
    spec_relative_from, spec_slashed, to_slash,
};

verus! {

/// One archived file: its source path, its archive-internal name once
/// resolved, and its record's and data block's placement once written.
#[derive(Debug)]
pub struct HeaderItem {
    pub path: FsPath,
    pub name: Option<String>,
    pub header_offset: Option<usize>,
    pub data_offset: Option<u64>,
    pub data_length: Option<u64>,
}

/// The archive's index: items in on-disk order.
#[derive(Debug)]
pub struct Header {
    pub items: Vec<HeaderItem>,
}

/// Mathematical value of a header item.
#[verifier::ext_equal]
pub ghost struct ItemView {
    pub path: PathView,
    pub name: Option<Seq<char>>,
    pub header_offset: Option<int>,
    pub data_offset: Option<u64>,
    pub data_length: Option<u64>,
}

impl View for HeaderItem {
    type V = ItemView;

    open spec fn view(&self) -> ItemView {
        ItemView {
            path: self.path@,
            name: match self.name {
                Option::Some(s) => Option::Some(s@),
                Option::None => Option::None,
            },
            header_offset: match self.header_offset {
                Option::Some(p) => Option::Some(p as int),
                Option::None => Option::None,
            },
            data_offset: self.data_offset,
            data_length: self.data_length,
        }
    }
}

pub open spec fn items_views(s: Seq<HeaderItem>) -> Seq<ItemView> {
    s.map_values(|it: HeaderItem| it@)
}

/// The bytes of an item's recorded source-path field: the forward-slash
/// rendering of the path, encoded.
pub open spec fn spec_path_bytes(v: ItemView) -> Seq<u8> {
    encode_utf8(spec_slashed(v.path))
}

/// Serialized length of one header record: twenty fixed bytes plus the name
/// and path fields; an item with no name yet serializes to nothing.
pub open spec fn spec_item_len(v: ItemView) -> int {
    match v.name {
        Option::None => 0,
        Option::Some(nm) => 20 + encode_utf8(nm).len() as int + spec_path_bytes(v).len() as int,
    }
}

/// The data offset an item's record carries: zero until finalized.
pub open spec fn spec_off0(v: ItemView) -> u64 {
    match v.data_offset {
        Option::Some(o) => o,
        Option::None => 0,
    }
}

/// The data length an item's record carries: zero until finalized.
pub open spec fn spec_len0(v: ItemView) -> u64 {
    match v.data_length {
        Option::Some(l) => l,
        Option::None => 0,
    }
}

/// One header record, little-endian, no padding: data offset, data length,
/// name length, name, path length, path.
pub open spec fn spec_record_bytes(v: ItemView) -> Seq<u8> {
    spec_u64_to_le_bytes(spec_off0(v)) + spec_u64_to_le_bytes(spec_len0(v)) + spec_u16_to_le_bytes(
        encode_utf8(v.name->Some_0).len() as u16,
    ) + encode_utf8(v.name->Some_0) + spec_u16_to_le_bytes(spec_path_bytes(v).len() as u16)
        + spec_path_bytes(v)
}

impl HeaderItem {
    /// A fresh item for a source path: no name, no placement yet.
    pub fn new(path: FsPath) -> (r: HeaderItem)
        ensures
            r@ == (ItemView {
                path: path@,
                name: Option::None,
                header_offset: Option::None,
                data_offset: Option::None,
                data_length: Option::None,
            }),
    {
        HeaderItem { path, name: None, header_offset: None, data_offset: None, data_length: None }
    }

    /// The item's serialized record length, in bytes.
    pub fn length(&self) -> (r: usize)
        requires
            spec_item_len(self@) <= usize::MAX,
        ensures
            r == spec_item_len(self@),
    {
        let name = match &self.name {
            Some(name) => name,
            None => {
                return 0;
            },
        };
        let path_str = to_slash(&self.path);
        let name_len = name.as_str().len();
        let path_len = path_str.as_str().len();
        8 + 8 + 2 + name_len + 2 + path_len
    }

    /// Serializes the item's header record at byte position `pos` of the
    /// header, appending it to `out` and recording the position; fails when
    /// the name is still unresolved or a string field exceeds its two-byte
    /// length, leaving `out` and the item unchanged.
    pub fn write(&mut self, pos: usize, out: &mut Vec<u8>) -> (r: Result<usize, String>)
        requires
            pos + spec_item_len(old(self)@) <= usize::MAX,
        ensures
            match r {
                Result::Ok(p) => {
                    &&& old(self)@.name is Some
                    &&& encode_utf8(old(self)@.name->Some_0).len() <= 0xffff
                    &&& spec_path_bytes(old(self)@).len() <= 0xffff
                    &&& final(self)@ == (ItemView {
                        header_offset: Option::Some(pos as int),
                        ..old(self)@
                    })
                    &&& final(out)@ == old(out)@ + spec_record_bytes(old(self)@)
                    &&& p == pos + spec_item_len(old(self)@)
                },
                Result::Err(_) => {
                    &&& final(self)@ == old(self)@
                    &&& final(out)@ == old(out)@
                    &&& (old(self)@.name is None || encode_utf8(old(self)@.name->Some_0).len()
                        > 0xffff || spec_path_bytes(old(self)@).len() > 0xffff)
                },
            },
    {
        let name = match &self.name {
            Some(name) => name.clone(),
            None => {
                return Err("Header item name not specified".to_owned());
            },
        };
        let name_bytes = name.as_str().as_bytes_vec();
        if name_bytes.len() > 0xffff {
            return Err("Name string is too long".to_owned());
        }
        let path_str = to_slash(&self.path);
        let path_bytes = path_str.as_str().as_bytes_vec();
        if path_bytes.len() > 0xffff {
            return Err("Path string is too long".to_owned());
        }
        let off = match self.data_offset {
            Some(o) => o,
            None => 0,
        };
        let len = match self.data_length {
            Some(l) => l,
            None => 0,
        };
        let ghost v0 = self@;
        let ghost out0 = out@;
        let name_len = name_bytes.len() as u16;
        let path_len = path_bytes.len() as u16;
        let mut field = u64_to_le_bytes(off);
        out.append(&mut field);
        let mut field = u64_to_le_bytes(len);
        out.append(&mut field);
        let mut field = u16_to_le_bytes(name_len);
        out.append(&mut field);
        let mut field = name_bytes;
        out.append(&mut field);
        let mut field = u16_to_le_bytes(path_len);
        out.append(&mut field);
        let mut field = path_bytes;
        out.append(&mut field);
        self.header_offset = Some(pos);
        proof {
            assert(out@ =~= out0 + spec_record_bytes(v0));
            assert(self@ =~= (ItemView { header_offset: Option::Some(pos as int), ..v0 }));
        }
        let rec_len = self.length();
        Ok(pos + rec_len)
    }
}

/// A fresh item view carrying a resolved name.
pub open spec fn spec_new_item(path: PathView, name: Seq<char>) -> ItemView {
    ItemView {
        path,
        name: Option::Some(name),
        header_offset: Option::None,
        data_offset: Option::None,
        data_length: Option::None,
    }
}

/// The entries one glob's matched paths yield: each path relative to the
/// base, rendered with forward slashes, as the entry's name; nothing when
/// some path cannot be made relative.
pub open spec fn rel_entries(base: PathView, paths: Seq<PathView>) -> Option<Seq<ItemView>>
    decreases paths.len(),
{
    if paths.len() == 0 {
        Option::Some(Seq::empty())
    } else {
        match spec_relative_from(paths[0], base) {
            Option::None => Option::None,
            Option::Some(rp) => match rel_entries(base, paths.drop_first()) {
                Option::None => Option::None,
                Option::Some(rest) => Option::Some(
                    seq![spec_new_item(paths[0], spec_slashed(rp))] + rest,
                ),
            },
        }
    }
}

/// What one match outcome contributes: the matched paths, or nothing when
/// the pattern itself failed.
pub open spec fn match_view(m: Result<Vec<FsPath>, String>) -> Option<Seq<PathView>> {
    match m {
        Result::Ok(v) => Option::Some(v@.map_values(|p: FsPath| p@)),
        Result::Err(_) => Option::None,
    }
}

pub open spec fn matches_views(s: Seq<Result<Vec<FsPath>, String>>) -> Seq<Option<Seq<PathView>>> {
    s.map_values(|m: Result<Vec<FsPath>, String>| match_view(m))
}

/// The entries of all bare-pattern rules, in rule order, each rule's matches
/// in their own order; nothing as soon as a pattern failed or a match cannot
/// be made relative.
pub open spec fn spec_unnamed_entries(
    base: PathView,
    content: Seq<ContentItemView>,
    matches: Seq<Option<Seq<PathView>>>,
) -> Option<Seq<ItemView>>
    decreases content.len(),
{
    if content.len() == 0 {
        Option::Some(Seq::empty())
    } else {
        match content[0] {
            ContentItemView::Unnamed { pattern } => match matches[0] {
                Option::None => Option::None,
                Option::Some(paths) => match rel_entries(base, paths) {
                    Option::None => Option::None,
                    Option::Some(es) => match spec_unnamed_entries(
                        base,
                        content.drop_first(),
                        matches.drop_first(),
                    ) {
                        Option::None => Option::None,
                        Option::Some(t) => Option::Some(es + t),
                    },
                },
            },
            ContentItemView::Named { name, pattern } => spec_unnamed_entries(
                base,
                content.drop_first(),
                matches.drop_first(),
            ),
        }
    }
}

/// The entries of all aliased rules, in rule order: the pattern taken as a
/// literal path joined to the base, under the rule's explicit name.
pub open spec fn spec_named_entries(base: PathView, content: Seq<ContentItemView>) -> Seq<ItemView>
    decreases content.len(),
{
    if content.len() == 0 {
        Seq::empty()
    } else {
        let rest = spec_named_entries(base, content.drop_first());
        match content[0] {
            ContentItemView::Named { name, pattern } => seq![
                spec_new_item(spec_join(base, spec_parse_path(pattern)), name),
            ] + rest,
            ContentItemView::Unnamed { pattern } => rest,
        }
    }
}

/// No two entries may share an archive name: duplicates are ambiguous on
/// unpack.
pub open spec fn names_distinct(items: Seq<ItemView>) -> bool {
    forall|i: int, j: int| 0 <= i < j < items.len() ==> items[i].name != items[j].name
}

/// The full entry list a job yields: bare-pattern entries first, aliased
/// entries after, rejected when any step fails or two names collide.
pub open spec fn spec_create_entries(
    base: PathView,
    content: Seq<ContentItemView>,
    matches: Seq<Option<Seq<PathView>>>,
) -> Option<Seq<ItemView>> {
    match spec_unnamed_entries(base, content, matches) {
        Option::None => Option::None,
        Option::Some(u) => {
            let all = u + spec_named_entries(base, content);
            if names_distinct(all) {
                Option::Some(all)
            } else {
                Option::None
            }
        },
    }
}

/// Law of empty resolution: a job of bare patterns, each of which matched
/// nothing, builds successfully with an empty entry list — a pattern that
/// matches no file is not an error.
pub proof fn lemma_zero_matches_build_empty(
    base: PathView,
    content: Seq<ContentItemView>,
    matches: Seq<Option<Seq<PathView>>>,
)
    requires
        content.len() == matches.len(),
        forall|i: int| 0 <= i < content.len() ==> content[i] is Unnamed,
        forall|i: int|
            0 <= i < matches.len() ==> matches[i] == Option::Some(Seq::<PathView>::empty()),
    ensures
        spec_create_entries(base, content, matches) == Option::Some(Seq::<ItemView>::empty()),
{
    lemma_all_unnamed_empty(base, content, matches);
    assert(names_distinct(Seq::<ItemView>::empty()));
    assert(Seq::<ItemView>::empty() + Seq::<ItemView>::empty() =~= Seq::<ItemView>::empty());
}

proof fn lemma_all_unnamed_empty(
    base: PathView,
    content: Seq<ContentItemView>,
    matches: Seq<Option<Seq<PathView>>>,
)
    requires
        content.len() == matches.len(),
        forall|i: int| 0 <= i < content.len() ==> content[i] is Unnamed,
        forall|i: int|
            0 <= i < matches.len() ==> matches[i] == Option::Some(Seq::<PathView>::empty()),
    ensures
        spec_unnamed_entries(base, content, matches) == Option::Some(Seq::<ItemView>::empty()),
        spec_named_entries(base, content) == Seq::<ItemView>::empty(),
    decreases content.len(),
{
    if content.len() == 0 {
    } else {
        assert(content[0] is Unnamed);
        assert(matches[0] == Option::Some(Seq::<PathView>::empty()));
        assert(rel_entries(base, Seq::<PathView>::empty()) == Option::Some(Seq::<
            ItemView,
        >::empty()));
        assert forall|i: int| 0 <= i < content.drop_first().len() implies content.drop_first()[i]
            is Unnamed by {
            assert(content[i + 1] is Unnamed);
        }
        assert forall|i: int|
            0 <= i < matches.drop_first().len() implies matches.drop_first()[i] == Option::Some(
            Seq::<PathView>::empty(),
        ) by {
            assert(matches[i + 1] == Option::Some(Seq::<PathView>::empty()));
        }
        lemma_all_unnamed_empty(base, content.drop_first(), matches.drop_first());
        assert(Seq::<ItemView>::empty() + Seq::<ItemView>::empty() =~= Seq::<ItemView>::empty());
    }
}

/// Number of aliased rules among the given content rules.
pub open spec fn named_count(content: Seq<ContentItemView>) -> int
    decreases content.len(),
{
    if content.len() == 0 {
        0
    } else {
        (match content[0] {
            ContentItemView::Named { name, pattern } => 1int,
            ContentItemView::Unnamed { pattern } => 0int,
        }) + named_count(content.drop_first())
    }
}

proof fn lemma_named_entries_len(base: PathView, content: Seq<ContentItemView>)
    ensures
        spec_named_entries(base, content).len() == named_count(content),
    decreases content.len(),
{
    if content.len() > 0 {
        lemma_named_entries_len(base, content.drop_first());
    }
}

/// Law of the aliased rule: each aliased rule yields exactly one entry,
/// named by its alias, sourced at the base joined with its pattern taken as
/// a literal path — never glob-expanded. The aliased entries stand in rule
/// order: the rule at `i` yields the entry at position
/// `named_count(content.take(i))` of the aliased entries, of which there is
/// one per aliased rule in all.
pub proof fn lemma_named_rule_entry(base: PathView, content: Seq<ContentItemView>, i: int)
    requires
        0 <= i < content.len(),
        content[i] is Named,
    ensures
        spec_named_entries(base, content).len() == named_count(content),
        0 <= named_count(content.take(i)) < named_count(content),
        spec_named_entries(base, content)[named_count(content.take(i))] == spec_new_item(
            spec_join(base, spec_parse_path(crate::config::spec_rule_pattern(content[i]))),
            crate::config::spec_rule_name(content[i]),
        ),
    decreases content.len(),
{
    lemma_named_entries_len(base, content);
    lemma_named_entries_len(base, content.drop_first());
    let named = spec_named_entries(base, content);
    let rest = spec_named_entries(base, content.drop_first());
    if i == 0 {
        assert(content.take(0) =~= Seq::<ContentItemView>::empty());
        assert(named_count(Seq::<ContentItemView>::empty()) == 0);
        assert(named[0] == spec_new_item(
            spec_join(base, spec_parse_path(crate::config::spec_rule_pattern(content[0]))),
            crate::config::spec_rule_name(content[0]),
        ));
    } else {
        assert(content.drop_first()[i - 1] == content[i]);
        lemma_named_rule_entry(base, content.drop_first(), i - 1);
        let k = named_count(content.drop_first().take(i - 1));
        assert(content.take(i)[0] == content[0]);
        assert(content.take(i).drop_first() =~= content.drop_first().take(i - 1));
        match content[0] {
            ContentItemView::Named { name, pattern } => {
                assert(named_count(content.take(i)) == 1 + k);
                assert(named[k + 1] == rest[k]);
            },
            ContentItemView::Unnamed { pattern } => {
                assert(named_count(content.take(i)) == k);
                assert(named[k] == rest[k]);
            },
        }
    }
}

proof fn lemma_named_entry_exists(base: PathView, content: Seq<ContentItemView>, j: int)
    requires
        0 <= j < content.len(),
        content[j] is Named,
    ensures
        exists|k: int|
            0 <= k < spec_named_entries(base, content).len() && (#[trigger] spec_named_entries(
                base,
                content,
            )[k]).name == Option::Some(crate::config::spec_rule_name(content[j])),
    decreases content.len(),
{
    let named = spec_named_entries(base, content);
    let rest = spec_named_entries(base, content.drop_first());
    if j == 0 {
        assert(named[0].name == Option::Some(crate::config::spec_rule_name(content[0])));
    } else {
        assert(content.drop_first()[j - 1] == content[j]);
        lemma_named_entry_exists(base, content.drop_first(), j - 1);
        let k = choose|k: int|
            0 <= k < rest.len() && (#[trigger] rest[k]).name == Option::Some(
                crate::config::spec_rule_name(content[j]),
            );
        match content[0] {
            ContentItemView::Named { name, pattern } => {
                assert(named[k + 1] == rest[k]);
            },
            ContentItemView::Unnamed { pattern } => {
                assert(named[k] == rest[k]);
            },
        }
    }
}

proof fn lemma_named_pair_collides(base: PathView, content: Seq<ContentItemView>, i: int, j: int)
    requires
        0 <= i < j < content.len(),
        content[i] is Named,
        content[j] is Named,
        crate::config::spec_rule_name(content[i]) == crate::config::spec_rule_name(content[j]),
    ensures
        !names_distinct(spec_named_entries(base, content)),
    decreases content.len(),
{
    let named = spec_named_entries(base, content);
    let rest = spec_named_entries(base, content.drop_first());
    if i == 0 {
        assert(content.drop_first()[j - 1] == content[j]);
        lemma_named_entry_exists(base, content.drop_first(), j - 1);
        let k = choose|k: int|
            0 <= k < rest.len() && (#[trigger] rest[k]).name == Option::Some(
                crate::config::spec_rule_name(content[j]),
            );
        assert(named[0].name == Option::Some(crate::config::spec_rule_name(content[0])));
        assert(named[k + 1] == rest[k]);
        assert(named[0].name == named[k + 1].name);
    } else {
        assert(content.drop_first()[i - 1] == content[i]);
        assert(content.drop_first()[j - 1] == content[j]);
        lemma_named_pair_collides(base, content.drop_first(), i - 1, j - 1);
        let (a, b) = choose|a: int, b: int|
            0 <= a < b < rest.len() && (#[trigger] rest[a]).name == (#[trigger] rest[b]).name;
        match content[0] {
            ContentItemView::Named { name, pattern } => {
                assert(named[a + 1] == rest[a]);
                assert(named[b + 1] == rest[b]);
                assert(named[a + 1].name == named[b + 1].name);
            },
            ContentItemView::Unnamed { pattern } => {
                assert(named[a] == rest[a]);
                assert(named[b] == rest[b]);
                assert(named[a].name == named[b].name);
            },
        }
    }
}

/// Law of name collision: two aliased rules in one job carrying the same
/// explicit name make the build fail — nothing is rendered for such a job,
/// so no output file is created from it.
pub proof fn lemma_duplicate_named_rejected(
    base: PathView,
    content: Seq<ContentItemView>,
    matches: Seq<Option<Seq<PathView>>>,
    i: int,
    j: int,
)
    requires
        content.len() == matches.len(),
        0 <= i < j < content.len(),
        content[i] is Named,
        content[j] is Named,
        crate::config::spec_rule_name(content[i]) == crate::config::spec_rule_name(content[j]),
    ensures
        spec_create_entries(base, content, matches) is None,
{
    match spec_unnamed_entries(base, content, matches) {
        Option::None => {},
        Option::Some(u) => {
            lemma_named_pair_collides(base, content, i, j);
            let named = spec_named_entries(base, content);
            let (a, b) = choose|a: int, b: int|
                0 <= a < b < named.len() && (#[trigger] named[a]).name == (
                #[trigger] named[b]).name;
            let all = u + named;
            assert(all[u.len() + a] == named[a]);
            assert(all[u.len() + b] == named[b]);
            assert(all[u.len() + a].name == all[u.len() + b].name);
            assert(!names_distinct(all));
        },
    }
}

proof fn lemma_rel_entries_snoc(base: PathView, paths: Seq<PathView>, k: int)
    requires
        0 <= k < paths.len(),
        rel_entries(base, paths.take(k)) is Some,
    ensures
        rel_entries(base, paths.take(k + 1)) == match spec_relative_from(paths[k], base) {
            Option::None => Option::None::<Seq<ItemView>>,
            Option::Some(rp) => Option::Some(
                rel_entries(base, paths.take(k))->Some_0.push(
                    spec_new_item(paths[k], spec_slashed(rp)),
                ),
            ),
        },
    decreases k,
{
    let pre = paths.take(k);
    let pre1 = paths.take(k + 1);
    if k == 0 {
        assert(pre1.len() == 1);
        assert(pre1[0] == paths[0]);
        assert(pre1.drop_first() =~= Seq::<PathView>::empty());
        assert(rel_entries(base, Seq::<PathView>::empty()) == Option::Some(Seq::<
            ItemView,
        >::empty()));
        assert(pre.len() == 0);
        assert(rel_entries(base, pre) == Option::Some(Seq::<ItemView>::empty()));
        match spec_relative_from(paths[0], base) {
            Option::None => {},
            Option::Some(rp) => {
                let e = spec_new_item(paths[0], spec_slashed(rp));
                assert(rel_entries(base, pre1) == Option::Some(
                    seq![e] + Seq::<ItemView>::empty(),
                ));
                assert(seq![e] + Seq::<ItemView>::empty() =~= Seq::<ItemView>::empty().push(e));
            },
        }
    } else {
        assert(pre[0] == paths[0]);
        assert(pre1[0] == paths[0]);
        assert(pre.drop_first() =~= paths.drop_first().take(k - 1));
        assert(pre1.drop_first() =~= paths.drop_first().take(k));
        assert(paths.drop_first()[k - 1] == paths[k]);
        assert(spec_relative_from(pre[0], base) is Some);
        lemma_rel_entries_snoc(base, paths.drop_first(), k - 1);
        let rp0 = spec_relative_from(paths[0], base)->Some_0;
        let e0 = spec_new_item(paths[0], spec_slashed(rp0));
        let u = rel_entries(base, paths.drop_first().take(k - 1))->Some_0;
        assert(rel_entries(base, pre)->Some_0 == seq![e0] + u);
        match spec_relative_from(paths[k], base) {
            Option::None => {},
            Option::Some(rp) => {
                let e = spec_new_item(paths[k], spec_slashed(rp));
                assert(rel_entries(base, paths.drop_first().take(k)) == Option::Some(u.push(e)));
                assert(seq![e0] + u.push(e) =~= (seq![e0] + u).push(e));
            },
        }
    }
}

proof fn lemma_rel_entries_err(base: PathView, paths: Seq<PathView>, k: int)
    requires
        0 < k <= paths.len(),
        rel_entries(base, paths.take(k)) is None,
    ensures
        rel_entries(base, paths) is None,
    decreases paths.len(),
{
    let pre = paths.take(k);
    if spec_relative_from(paths[0], base) is None {
    } else {
        assert(pre[0] == paths[0]);
        if k == 1 {
            assert(pre.drop_first() =~= Seq::<PathView>::empty());
            assert(rel_entries(base, Seq::<PathView>::empty()) is Some);
            assert(rel_entries(base, pre.drop_first()) is Some);
            assert(false);
        } else {
            assert(pre.drop_first() =~= paths.drop_first().take(k - 1));
            lemma_rel_entries_err(base, paths.drop_first(), k - 1);
        }
    }
}

proof fn lemma_unnamed_snoc(
    base: PathView,
    content: Seq<ContentItemView>,
    matches: Seq<Option<Seq<PathView>>>,
    i: int,
)
    requires
        0 <= i < content.len(),
        content.len() == matches.len(),
        spec_unnamed_entries(base, content.take(i), matches.take(i)) is Some,
    ensures
        spec_unnamed_entries(base, content.take(i + 1), matches.take(i + 1)) == match content[i] {
            ContentItemView::Named { name, pattern } => spec_unnamed_entries(
                base,
                content.take(i),
                matches.take(i),
            ),
            ContentItemView::Unnamed { pattern } => match matches[i] {
                Option::None => Option::None::<Seq<ItemView>>,
                Option::Some(paths) => match rel_entries(base, paths) {
                    Option::None => Option::None::<Seq<ItemView>>,
                    Option::Some(es) => Option::Some(
                        spec_unnamed_entries(base, content.take(i), matches.take(i))->Some_0 + es,
                    ),
                },
            },
        },
    decreases i,
{
    let prec = content.take(i);
    let prem = matches.take(i);
    let prec1 = content.take(i + 1);
    let prem1 = matches.take(i + 1);
    if i == 0 {
        assert(prec1.len() == 1);
        assert(prec1[0] == content[0]);
        assert(prem1[0] == matches[0]);
        assert(prec1.drop_first() =~= Seq::<ContentItemView>::empty());
        assert(prem1.drop_first() =~= Seq::<Option<Seq<PathView>>>::empty());
        assert(spec_unnamed_entries(
            base,
            Seq::<ContentItemView>::empty(),
            Seq::<Option<Seq<PathView>>>::empty(),
        ) == Option::Some(Seq::<ItemView>::empty()));
        assert(prec.len() == 0);
        assert(spec_unnamed_entries(base, prec, prem) == Option::Some(Seq::<ItemView>::empty()));
        match content[0] {
            ContentItemView::Named { name, pattern } => {},
            ContentItemView::Unnamed { pattern } => {
                match matches[0] {
                    Option::None => {},
                    Option::Some(paths) => {
                        match rel_entries(base, paths) {
                            Option::None => {},
                            Option::Some(es) => {
                                assert(spec_unnamed_entries(base, prec1, prem1) == Option::Some(
                                    es + Seq::<ItemView>::empty(),
                                ));
                                assert(es + Seq::<ItemView>::empty() =~= Seq::<
                                    ItemView,
                                >::empty() + es);
                            },
                        }
                    },
                }
            },
        }
    } else {
        assert(prec[0] == content[0]);
        assert(prec1[0] == content[0]);
        assert(prem[0] == matches[0]);
        assert(prem1[0] == matches[0]);
        assert(prec.drop_first() =~= content.drop_first().take(i - 1));
        assert(prem.drop_first() =~= matches.drop_first().take(i - 1));
        assert(prec1.drop_first() =~= content.drop_first().take(i));
        assert(prem1.drop_first() =~= matches.drop_first().take(i));
        assert(content.drop_first()[i - 1] == content[i]);
        assert(matches.drop_first()[i - 1] == matches[i]);
        lemma_unnamed_snoc(base, content.drop_first(), matches.drop_first(), i - 1);
        match content[0] {
            ContentItemView::Named { name, pattern } => {},
            ContentItemView::Unnamed { pattern } => {
                let paths0 = matches[0]->Some_0;
                let es0 = rel_entries(base, paths0)->Some_0;
                let u = spec_unnamed_entries(
                    base,
                    content.drop_first().take(i - 1),
                    matches.drop_first().take(i - 1),
                )->Some_0;
                assert(spec_unnamed_entries(base, prec, prem)->Some_0 == es0 + u);
                match content[i] {
                    ContentItemView::Named { name, pattern } => {},
                    ContentItemView::Unnamed { pattern } => {
                        match matches[i] {
                            Option::None => {},
                            Option::Some(paths) => {
                                match rel_entries(base, paths) {
                                    Option::None => {},
                                    Option::Some(es) => {
                                        assert(es0 + (u + es) =~= (es0 + u) + es);
                                    },
                                }
                            },
                        }
                    },
                }
            },
        }
    }
}

proof fn lemma_unnamed_err(
    base: PathView,
    content: Seq<ContentItemView>,
    matches: Seq<Option<Seq<PathView>>>,
    i: int,
)
    requires
        0 < i <= content.len(),
        content.len() == matches.len(),
        spec_unnamed_entries(base, content.take(i), matches.take(i)) is None,
    ensures
        spec_unnamed_entries(base, content, matches) is None,
    decreases content.len(),
{
    let prec = content.take(i);
    let prem = matches.take(i);
    assert(prec[0] == content[0]);
    assert(prem[0] == matches[0]);
    assert(prec.drop_first() =~= content.drop_first().take(i - 1));
    assert(prem.drop_first() =~= matches.drop_first().take(i - 1));
    match content[0] {
        ContentItemView::Named { name, pattern } => {
            if i == 1 {
                assert(prec.drop_first() =~= Seq::<ContentItemView>::empty());
                assert(spec_unnamed_entries(
                    base,
                    Seq::<ContentItemView>::empty(),
                    Seq::<Option<Seq<PathView>>>::empty(),
                ) is Some);
                assert(prem.drop_first() =~= Seq::<Option<Seq<PathView>>>::empty());
                assert(false);
            } else {
                lemma_unnamed_err(base, content.drop_first(), matches.drop_first(), i - 1);
            }
        },
        ContentItemView::Unnamed { pattern } => {
            match matches[0] {
                Option::None => {},
                Option::Some(paths) => {
                    match rel_entries(base, paths) {
                        Option::None => {},
                        Option::Some(es) => {
                            if i == 1 {
                                assert(prec.drop_first() =~= Seq::<ContentItemView>::empty());
                                assert(prem.drop_first() =~= Seq::<
                                    Option<Seq<PathView>>,
                                >::empty());
                                assert(spec_unnamed_entries(
                                    base,
                                    Seq::<ContentItemView>::empty(),
                                    Seq::<Option<Seq<PathView>>>::empty(),
                                ) is Some);
                                assert(false);
                            } else {
                                lemma_unnamed_err(
                                    base,
                                    content.drop_first(),
                                    matches.drop_first(),
                                    i - 1,
                                );
                            }
                        },
                    }
                },
            }
        },
    }
}

proof fn lemma_named_snoc(base: PathView, content: Seq<ContentItemView>, i: int)
    requires
        0 <= i < content.len(),
    ensures
        spec_named_entries(base, content.take(i + 1)) == match content[i] {
            ContentItemView::Named { name, pattern } => spec_named_entries(
                base,
                content.take(i),
            ).push(spec_new_item(spec_join(base, spec_parse_path(pattern)), name)),
            ContentItemView::Unnamed { pattern } => spec_named_entries(base, content.take(i)),
        },
    decreases i,
{
    let prec = content.take(i);
    let prec1 = content.take(i + 1);
    if i == 0 {
        assert(prec1.len() == 1);
        assert(prec1[0] == content[0]);
        assert(prec1.drop_first() =~= Seq::<ContentItemView>::empty());
        assert(spec_named_entries(base, Seq::<ContentItemView>::empty()) =~= Seq::<
            ItemView,
        >::empty());
        assert(prec.len() == 0);
        assert(spec_named_entries(base, prec) =~= Seq::<ItemView>::empty());
        match content[0] {
            ContentItemView::Named { name, pattern } => {
                let e = spec_new_item(spec_join(base, spec_parse_path(pattern)), name);
                assert(spec_named_entries(base, prec1) =~= seq![e] + Seq::<ItemView>::empty());
                assert(seq![e] + Seq::<ItemView>::empty() =~= Seq::<ItemView>::empty().push(e));
            },
            ContentItemView::Unnamed { pattern } => {},
        }
    } else {
        assert(prec[0] == content[0]);
        assert(prec1[0] == content[0]);
        assert(prec.drop_first() =~= content.drop_first().take(i - 1));
        assert(prec1.drop_first() =~= content.drop_first().take(i));
        assert(content.drop_first()[i - 1] == content[i]);
        lemma_named_snoc(base, content.drop_first(), i - 1);
        let u = spec_named_entries(base, content.drop_first().take(i - 1));
        match content[0] {
            ContentItemView::Named { name, pattern } => {
                let e0 = spec_new_item(spec_join(base, spec_parse_path(pattern)), name);
                assert(spec_named_entries(base, prec) =~= seq![e0] + u);
                match content[i] {
                    ContentItemView::Named { name: n2, pattern: p2 } => {
                        let e = spec_new_item(spec_join(base, spec_parse_path(p2)), n2);
                        assert(seq![e0] + u.push(e) =~= (seq![e0] + u).push(e));
                    },
                    ContentItemView::Unnamed { pattern: p2 } => {},
                }
            },
            ContentItemView::Unnamed { pattern } => {},
        }
    }
}

/// Builds a job's header: every bare pattern's matches become entries named
/// by their base-relative forward-slash paths, then every aliased rule
/// becomes one entry whose source is the pattern joined to the base as a
/// literal path; duplicate archive names are rejected. `matches` carries,
/// for each content rule in order, the paths its glob matched — or the
/// pattern's own failure — and is ignored for aliased rules.
pub fn create_header(
    base: &FsPath,
    config: &Config,
    matches: &Vec<Result<Vec<FsPath>, String>>,
) -> (r: Result<Header, String>)
    requires
        matches@.len() == config.content@.len(),
    ensures
        match r {
            Result::Ok(h) => spec_create_entries(
                base@,
                content_views(config.content@),
                matches_views(matches@),
            ) == Option::Some(items_views(h.items@)),
            Result::Err(_) => spec_create_entries(
                base@,
                content_views(config.content@),
                matches_views(matches@),
            ) is None,
        },
{
    let ghost contentv = content_views(config.content@);
    let ghost matchesv = matches_views(matches@);
    let mut items: Vec<HeaderItem> = Vec::new();
    let mut i: usize = 0;
    proof {
        assert(contentv.take(0) =~= Seq::<ContentItemView>::empty());
        assert(matchesv.take(0) =~= Seq::<Option<Seq<PathView>>>::empty());
        assert(items_views(items@) =~= Seq::<ItemView>::empty());
    }
    while i < config.content.len()
        invariant
            i <= config.content.len(),
            config.content@.len() == contentv.len(),
            matches@.len() == contentv.len(),
            matchesv.len() == contentv.len(),
            contentv == content_views(config.content@),
            matchesv == matches_views(matches@),
            forall|m: int| 0 <= m < contentv.len() ==> #[trigger] contentv[m] == config.content@[m]@,
            forall|m: int|
                0 <= m < contentv.len() ==> #[trigger] matchesv[m] == match_view(matches@[m]),
            spec_unnamed_entries(base@, contentv.take(i as int), matchesv.take(i as int))
                == Option::Some(items_views(items@)),
            forall|m: int| 0 <= m < items@.len() ==> (#[trigger] items@[m]@).name is Some,
        decreases config.content.len() - i,
    {
        match &config.content[i] {
            ContentItem::Unnamed { pattern } => {
                match &matches[i] {
                    Err(e) => {
                        proof {
                            assert(matchesv[i as int] is None);
                            lemma_unnamed_snoc(base@, contentv, matchesv, i as int);
                            lemma_unnamed_err(base@, contentv, matchesv, i as int + 1);
                        }
                        return Err(e.clone());
                    },
                    Ok(paths) => {
                        let ghost pathsv = match_view(matches@[i as int])->Some_0;
                        let ghost upre = items_views(items@);
                        let mut k: usize = 0;
                        proof {
                            assert(matchesv[i as int] == Option::Some(pathsv));
                            assert(pathsv.take(0) =~= Seq::<PathView>::empty());
                            assert(rel_entries(base@, pathsv.take(0)) == Option::Some(Seq::<
                                ItemView,
                            >::empty()));
                            assert(upre + Seq::<ItemView>::empty() =~= upre);
                        }
                        while k < paths.len()
                            invariant
                                k <= paths.len(),
                                i < config.content.len(),
                                config.content@.len() == contentv.len(),
                                matches@.len() == contentv.len(),
                                matchesv.len() == contentv.len(),
                                contentv == content_views(config.content@),
                                matchesv == matches_views(matches@),
                                forall|m: int|
                                    0 <= m < contentv.len() ==> #[trigger] contentv[m]
                                        == config.content@[m]@,
                                forall|m: int|
                                    0 <= m < contentv.len() ==> #[trigger] matchesv[m]
                                        == match_view(matches@[m]),
                                contentv[i as int] is Unnamed,
                                matchesv[i as int] == Option::Some(pathsv),
                                spec_unnamed_entries(
                                    base@,
                                    contentv.take(i as int),
                                    matchesv.take(i as int),
                                ) == Option::Some(upre),
                                paths@.len() == pathsv.len(),
                                forall|m: int|
                                    0 <= m < pathsv.len() ==> #[trigger] pathsv[m] == paths@[m]@,
                                rel_entries(base@, pathsv.take(k as int)) is Some,
                                items_views(items@) == upre + rel_entries(
                                    base@,
                                    pathsv.take(k as int),
                                )->Some_0,
                                forall|m: int|
                                    0 <= m < items@.len() ==> (#[trigger] items@[m]@).name
                                        is Some,
                            decreases paths.len() - k,
                        {
                            match path_relative_from(&paths[k], base) {
                                None => {
                                    proof {
                                        lemma_rel_entries_snoc(base@, pathsv, k as int);
                                        lemma_rel_entries_err(base@, pathsv, k as int + 1);
                                        assert(rel_entries(base@, pathsv) is None);
                                        lemma_unnamed_snoc(base@, contentv, matchesv, i as int);
                                        assert(matchesv[i as int] == Option::Some(pathsv));
                                        lemma_unnamed_err(
                                            base@,
                                            contentv,
                                            matchesv,
                                            i as int + 1,
                                        );
                                    }
                                    let mut msg = "Unable to create relative path: ".to_owned();
                                    msg.append(to_slash(&paths[k]).as_str());
                                    return Err(msg);
                                },
                                Some(rp) => {
                                    let name = to_slash(&rp);
                                    let mut it = HeaderItem::new(paths[k].duplicate());
                                    it.name = Some(name);
                                    let ghost sofar = items_views(items@);
                                    let ghost itv = it@;
                                    items.push(it);
                                    proof {
                                        assert(items_views(items@) =~= sofar.push(itv));
                                        lemma_rel_entries_snoc(base@, pathsv, k as int);
                                        assert(itv == spec_new_item(
                                            pathsv[k as int],
                                            spec_slashed(spec_relative_from(
                                                pathsv[k as int],
                                                base@,
                                            )->Some_0),
                                        ));
                                    }
                                },
                            }
                            k = k + 1;
                        }
                        proof {
                            assert(pathsv.take(pathsv.len() as int) =~= pathsv);
                            lemma_unnamed_snoc(base@, contentv, matchesv, i as int);
                            assert(matchesv[i as int] == Option::Some(pathsv));
                        }
                    },
                }
            },
            ContentItem::Named { name, pattern } => {
                proof {
                    lemma_unnamed_snoc(base@, contentv, matchesv, i as int);
                }
            },
        }
        i = i + 1;
    }
    proof {
        assert(contentv.take(contentv.len() as int) =~= contentv);
        assert(matchesv.take(matchesv.len() as int) =~= matchesv);
    }
    let ghost uall = items_views(items@);
    let mut i: usize = 0;
    proof {
        assert(contentv.take(0) =~= Seq::<ContentItemView>::empty());
        assert(spec_named_entries(base@, contentv.take(0)) =~= Seq::<ItemView>::empty());
        assert(uall + Seq::<ItemView>::empty() =~= uall);
    }
    while i < config.content.len()
        invariant
            i <= config.content.len(),
            config.content@.len() == contentv.len(),
            contentv == content_views(config.content@),
            matchesv == matches_views(matches@),
            spec_unnamed_entries(base@, contentv, matchesv) == Option::Some(uall),
            forall|m: int| 0 <= m < contentv.len() ==> #[trigger] contentv[m] == config.content@[m]@,
            items_views(items@) == uall + spec_named_entries(base@, contentv.take(i as int)),
            forall|m: int| 0 <= m < items@.len() ==> (#[trigger] items@[m]@).name is Some,
        decreases config.content.len() - i,
    {
        match &config.content[i] {
            ContentItem::Named { name, pattern } => {
                let lit = parse_path(pattern.as_str());
                let path = join_path(base, &lit);
                let mut it = HeaderItem::new(path);
                it.name = Some(name.clone());
                let ghost sofar = items_views(items@);
                let ghost itv = it@;
                items.push(it);
                proof {
                    assert(items_views(items@) =~= sofar.push(itv));
                    lemma_named_snoc(base@, contentv, i as int);
                    assert(itv == spec_new_item(
                        spec_join(base@, spec_parse_path(pattern@)),
                        name@,
                    ));
                    assert(uall + spec_named_entries(base@, contentv.take(i as int)).push(itv)
                        =~= (uall + spec_named_entries(base@, contentv.take(i as int))).push(
                        itv,
                    ));
                }
            },
            ContentItem::Unnamed { pattern } => {
                proof {
                    lemma_named_snoc(base@, contentv, i as int);
                }
            },
        }
        i = i + 1;
    }
    proof {
        assert(contentv.take(contentv.len() as int) =~= contentv);
    }
    let ghost all = items_views(items@);
    proof {
        assert(spec_unnamed_entries(base@, contentv, matchesv) == Option::Some(uall));
        assert(all == uall + spec_named_entries(base@, contentv));
    }
    let mut a: usize = 0;
    while a < items.len()
        invariant
            a <= items.len(),
            all == items_views(items@),
            contentv == content_views(config.content@),
            matchesv == matches_views(matches@),
            spec_unnamed_entries(base@, contentv, matchesv) == Option::Some(uall),
            all == uall + spec_named_entries(base@, contentv),
            forall|m: int| 0 <= m < items@.len() ==> (#[trigger] items@[m]@).name is Some,
            forall|x: int, y: int|
                0 <= x < y < all.len() && x < a ==> all[x].name != all[y].name,
        decreases items.len() - a,
    {
        let mut b: usize = a + 1;
        while b < items.len()
            invariant
                a < items.len(),
                a + 1 <= b <= items.len(),
                all == items_views(items@),
                contentv == content_views(config.content@),
                matchesv == matches_views(matches@),
                spec_unnamed_entries(base@, contentv, matchesv) == Option::Some(uall),
                all == uall + spec_named_entries(base@, contentv),
                forall|m: int| 0 <= m < items@.len() ==> (#[trigger] items@[m]@).name is Some,
                forall|x: int, y: int|
                    0 <= x < y < all.len() && x < a ==> all[x].name != all[y].name,
                forall|y: int| a < y < b ==> all[a as int].name != all[y].name,
            decreases items.len() - b,
        {
            let dup = match (&items[a].name, &items[b].name) {
                (Some(x), Some(y)) => *x == *y,
                _ => false,
            };
            if dup {
                proof {
                    assert(all[a as int].name == all[b as int].name);
                    assert(!names_distinct(all));
                }
                let mut msg = "Duplicate archive name in job: ".to_owned();
                match &items[a].name {
                    Some(n) => msg.append(n.as_str()),
                    None => {},
                }
                return Err(msg);
            }
            b = b + 1;
        }
        a = a + 1;
    }
    proof {
        assert(names_distinct(all));
    }
    Ok(Header { items })
}

} // verus!
