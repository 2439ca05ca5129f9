//! The manifest model: an archive job's output name, optional base-directory
//! override, and ordered content items, together with the verified
//! transformation from a raw manifest document into that model. Reading and
//! lexing the manifest's textual format happens outside the library; it hands
//! in a [`RawDoc`] of plain values.

use vstd::prelude::*;

verus! {

/// One archive job as declared by the manifest.
#[derive(Debug)]
pub struct Config {
    pub output: String,
    pub base: Option<String>,
    pub content: Vec<ContentItem>,
}

/// One content rule: a bare glob pattern, or a pattern aliased to an
/// explicit archive name.
#[derive(Debug)]
pub enum ContentItem {
    Unnamed { pattern: String },
    Named { name: String, pattern: String },
}

/// Mathematical value of a content rule.
#[verifier::ext_equal]
pub ghost enum ContentItemView {
    Unnamed { pattern: Seq<char> },
    Named { name: Seq<char>, pattern: Seq<char> },
}

/// Mathematical value of a job.
#[verifier::ext_equal]
pub ghost struct ConfigView {
    pub output: Seq<char>,
    pub base: Option<Seq<char>>,
    pub content: Seq<ContentItemView>,
}

impl View for ContentItem {
    type V = ContentItemView;

    open spec fn view(&self) -> ContentItemView {
        match self {
            ContentItem::Unnamed { pattern } => ContentItemView::Unnamed { pattern: pattern@ },
            ContentItem::Named { name, pattern } => ContentItemView::Named {
                name: name@,
                pattern: pattern@,
            },
        }
    }
}

pub open spec fn content_views(s: Seq<ContentItem>) -> Seq<ContentItemView> {
    s.map_values(|it: ContentItem| it@)
}

/// The explicit name of an aliased rule; for a bare rule, its pattern.
pub open spec fn spec_rule_name(c: ContentItemView) -> Seq<char> {
    match c {
        ContentItemView::Named { name, pattern } => name,
        ContentItemView::Unnamed { pattern } => pattern,
    }
}

/// The pattern of a rule, aliased or bare.
pub open spec fn spec_rule_pattern(c: ContentItemView) -> Seq<char> {
    match c {
        ContentItemView::Named { name, pattern } => pattern,
        ContentItemView::Unnamed { pattern } => pattern,
    }
}

pub open spec fn opt_str_view(o: Option<String>) -> Option<Seq<char>> {
    match o {
        Option::Some(s) => Option::Some(s@),
        Option::None => Option::None,
    }
}

impl View for Config {
    type V = ConfigView;

    open spec fn view(&self) -> ConfigView {
        ConfigView {
            output: self.output@,
            base: opt_str_view(self.base),
            content: content_views(self.content@),
        }
    }
}

/// One content entry as the manifest's reader found it: a plain string, a
/// mapping of keys to values where either side may fail to be a string, or
/// something else entirely.
#[derive(Debug)]
pub enum RawItem {
    Text(String),
    Pairs(Vec<(Option<String>, Option<String>)>),
    Other,
}

/// One manifest document as its reader found it.
#[derive(Debug)]
pub struct RawDoc {
    pub output: Option<String>,
    pub base: Option<String>,
    pub content: Option<Vec<RawItem>>,
}

/// Mathematical value of a raw content entry.
#[verifier::ext_equal]
pub ghost enum RawItemView {
    Text(Seq<char>),
    Pairs(Seq<(Option<Seq<char>>, Option<Seq<char>>)>),
    Other,
}

impl View for RawItem {
    type V = RawItemView;

    open spec fn view(&self) -> RawItemView {
        match self {
            RawItem::Text(s) => RawItemView::Text(s@),
            RawItem::Pairs(v) => RawItemView::Pairs(
                v@.map_values(|kv: (Option<String>, Option<String>)| (opt_str_view(kv.0), opt_str_view(kv.1))),
            ),
            RawItem::Other => RawItemView::Other,
        }
    }
}

/// A parsed content entry: a single rule, or the several rules a mapping
/// with more than one key expands into, preserving key order.
#[derive(Debug)]
pub enum ParsedContentItem {
    Single(ContentItem),
    Multiple(Vec<ContentItem>),
}

/// The rules a parsed entry carries, in order.
pub open spec fn parsed_items(p: ParsedContentItem) -> Seq<ContentItemView> {
    match p {
        ParsedContentItem::Single(it) => seq![it@],
        ParsedContentItem::Multiple(v) => content_views(v@),
    }
}

/// What one key-value pair of a mapping entry yields: a named rule, unless
/// the key is not a string, the key is empty, or the value is not a string.
pub open spec fn spec_parse_pair(kv: (Option<Seq<char>>, Option<Seq<char>>)) -> Result<
    ContentItemView,
    (),
> {
    match kv.0 {
        Option::None => Result::Err(()),
        Option::Some(k) => if k.len() == 0 {
            Result::Err(())
        } else {
            match kv.1 {
                Option::None => Result::Err(()),
                Option::Some(v) => Result::Ok(ContentItemView::Named { name: k, pattern: v }),
            }
        },
    }
}

pub open spec fn spec_parse_pairs(kvs: Seq<(Option<Seq<char>>, Option<Seq<char>>)>) -> Result<
    Seq<ContentItemView>,
    (),
>
    decreases kvs.len(),
{
    if kvs.len() == 0 {
        Result::Ok(Seq::empty())
    } else {
        match spec_parse_pair(kvs[0]) {
            Result::Err(()) => Result::Err(()),
            Result::Ok(it) => match spec_parse_pairs(kvs.drop_first()) {
                Result::Err(()) => Result::Err(()),
                Result::Ok(rest) => Result::Ok(seq![it] + rest),
            },
        }
    }
}

/// What one raw content entry yields: a plain string is a bare pattern; a
/// mapping yields one named rule per pair and is rejected when empty or when
/// any pair is malformed; anything else is rejected.
pub open spec fn spec_parse_content_item(item: RawItemView) -> Result<Seq<ContentItemView>, ()> {
    match item {
        RawItemView::Text(p) => Result::Ok(seq![ContentItemView::Unnamed { pattern: p }]),
        RawItemView::Pairs(kvs) => if kvs.len() == 0 {
            Result::Err(())
        } else {
            spec_parse_pairs(kvs)
        },
        RawItemView::Other => Result::Err(()),
    }
}

proof fn lemma_parse_pairs_snoc(kvs: Seq<(Option<Seq<char>>, Option<Seq<char>>)>, j: int)
    requires
        0 <= j < kvs.len(),
        spec_parse_pairs(kvs.take(j)) is Ok,
    ensures
        spec_parse_pairs(kvs.take(j + 1)) == match spec_parse_pair(kvs[j]) {
            Result::Err(()) => Result::Err::<Seq<ContentItemView>, ()>(()),
            Result::Ok(it) => Result::Ok(spec_parse_pairs(kvs.take(j))->Ok_0.push(it)),
        },
    decreases j,
{
    let pre = kvs.take(j);
    let pre1 = kvs.take(j + 1);
    if j == 0 {
        assert(pre1.len() == 1);
        assert(pre1[0] == kvs[0]);
        assert(pre1.drop_first() =~= Seq::<(Option<Seq<char>>, Option<Seq<char>>)>::empty());
        assert(spec_parse_pairs(Seq::<(Option<Seq<char>>, Option<Seq<char>>)>::empty())
            == Result::Ok::<Seq<ContentItemView>, ()>(Seq::empty()));
        assert(pre.len() == 0);
        assert(spec_parse_pairs(pre) == Result::Ok::<Seq<ContentItemView>, ()>(Seq::empty()));
        if spec_parse_pair(kvs[0]) is Ok {
            let it = spec_parse_pair(kvs[0])->Ok_0;
            assert(spec_parse_pairs(pre1) == Result::Ok::<Seq<ContentItemView>, ()>(
                seq![it] + Seq::<ContentItemView>::empty(),
            ));
            assert(seq![it] + Seq::<ContentItemView>::empty() =~= Seq::<
                ContentItemView,
            >::empty().push(it));
        }
    } else {
        assert(pre[0] == kvs[0]);
        assert(pre1[0] == kvs[0]);
        assert(pre.drop_first() =~= kvs.drop_first().take(j - 1));
        assert(pre1.drop_first() =~= kvs.drop_first().take(j));
        assert(kvs.drop_first()[j - 1] == kvs[j]);
        assert(spec_parse_pair(pre[0]) is Ok);
        lemma_parse_pairs_snoc(kvs.drop_first(), j - 1);
        let it0 = spec_parse_pair(kvs[0])->Ok_0;
        let u = spec_parse_pairs(kvs.drop_first().take(j - 1))->Ok_0;
        assert(spec_parse_pairs(pre)->Ok_0 == seq![it0] + u);
        match spec_parse_pair(kvs[j]) {
            Result::Err(()) => {},
            Result::Ok(it) => {
                assert(spec_parse_pairs(kvs.drop_first().take(j)) == Result::Ok::<_, ()>(
                    u.push(it),
                ));
                assert(seq![it0] + u.push(it) =~= (seq![it0] + u).push(it));
            },
        }
    }
}

/// Parses one raw content entry as [`spec_parse_content_item`] says; a
/// mapping with exactly one pair yields a single rule.
pub fn parse_content_item(content_item: &RawItem) -> (r: Result<ParsedContentItem, String>)
    ensures
        match r {
            Result::Ok(p) => spec_parse_content_item(content_item@) == Result::Ok::<_, ()>(
                parsed_items(p),
            ) && (p is Single <==> parsed_items(p).len() == 1),
            Result::Err(_) => spec_parse_content_item(content_item@) is Err,
        },
{
    match content_item {
        RawItem::Text(p) => {
            let it = ContentItem::Unnamed { pattern: p.clone() };
            proof {
                assert(parsed_items(ParsedContentItem::Single(it)) =~= seq![
                    ContentItemView::Unnamed { pattern: p@ },
                ]);
            }
            Ok(ParsedContentItem::Single(it))
        },
        RawItem::Pairs(kvs) => {
            if kvs.len() == 0 {
                return Err("Empty content rows are not allowed".to_owned());
            }
            let ghost kvv = content_item@->Pairs_0;
            let mut out: Vec<ContentItem> = Vec::new();
            let mut j: usize = 0;
            proof {
                assert(kvv.take(0) =~= Seq::empty());
                assert(content_views(out@) =~= Seq::empty());
            }
            while j < kvs.len()
                invariant
                    j <= kvs.len(),
                    kvs@.len() == kvv.len(),
                    content_item@ == RawItemView::Pairs(kvv),
                    forall|m: int|
                        0 <= m < kvv.len() ==> #[trigger] kvv[m] == (
                            opt_str_view(kvs@[m].0),
                            opt_str_view(kvs@[m].1),
                        ),
                    spec_parse_pairs(kvv.take(j as int)) == Result::Ok::<_, ()>(
                        content_views(out@),
                    ),
                    out@.len() == j,
                decreases kvs.len() - j,
            {
                let key = match &kvs[j].0 {
                    Some(k) => k,
                    None => {
                        proof {
                            lemma_parse_pairs_snoc(kvv, j as int);
                            lemma_parse_pairs_err(kvv, j as int + 1);
                        }
                        return Err("Named content item key must be a string".to_owned());
                    },
                };
                if key.as_str().is_empty() {
                    proof {
                        lemma_parse_pairs_snoc(kvv, j as int);
                        lemma_parse_pairs_err(kvv, j as int + 1);
                    }
                    return Err("Named content item key must not be empty".to_owned());
                }
                let value = match &kvs[j].1 {
                    Some(v) => v,
                    None => {
                        proof {
                            lemma_parse_pairs_snoc(kvv, j as int);
                            lemma_parse_pairs_err(kvv, j as int + 1);
                        }
                        return Err("Named content item value must be a string pattern".to_owned());
                    },
                };
                let ghost before = content_views(out@);
                out.push(ContentItem::Named { name: key.clone(), pattern: value.clone() });
                proof {
                    lemma_parse_pairs_snoc(kvv, j as int);
                    assert(content_views(out@) =~= before.push(
                        ContentItemView::Named { name: key@, pattern: value@ },
                    ));
                }
                j = j + 1;
            }
            proof {
                assert(kvv.take(kvv.len() as int) =~= kvv);
            }
            if out.len() == 1 {
                let ghost full = content_views(out@);
                let it = out.remove(0);
                proof {
                    assert(full =~= seq![it@]);
                    assert(parsed_items(ParsedContentItem::Single(it)) =~= full);
                }
                Ok(ParsedContentItem::Single(it))
            } else {
                Ok(ParsedContentItem::Multiple(out))
            }
        },
        RawItem::Other => Err("Unable to parse content item".to_owned()),
    }
}

/// What a sequence of raw content entries yields: each entry's rules in
/// order, or a rejection as soon as one entry is malformed.
pub open spec fn spec_parse_items(items: Seq<RawItemView>) -> Result<Seq<ContentItemView>, ()>
    decreases items.len(),
{
    if items.len() == 0 {
        Result::Ok(Seq::empty())
    } else {
        match spec_parse_content_item(items[0]) {
            Result::Err(()) => Result::Err(()),
            Result::Ok(s) => match spec_parse_items(items.drop_first()) {
                Result::Err(()) => Result::Err(()),
                Result::Ok(t) => Result::Ok(s + t),
            },
        }
    }
}

/// What one raw document yields: a job, provided the document names an
/// output and carries a content array whose entries all parse.
pub open spec fn spec_parse_document(
    output: Option<Seq<char>>,
    base: Option<Seq<char>>,
    content: Option<Seq<RawItemView>>,
) -> Result<ConfigView, ()> {
    match output {
        Option::None => Result::Err(()),
        Option::Some(out) => match content {
            Option::None => Result::Err(()),
            Option::Some(items) => match spec_parse_items(items) {
                Result::Err(()) => Result::Err(()),
                Result::Ok(rules) => Result::Ok(
                    ConfigView { output: out, base: base, content: rules },
                ),
            },
        },
    }
}

pub open spec fn raw_views(s: Seq<RawItem>) -> Seq<RawItemView> {
    s.map_values(|it: RawItem| it@)
}

pub open spec fn doc_content_view(doc: RawDoc) -> Option<Seq<RawItemView>> {
    match doc.content {
        Option::Some(v) => Option::Some(raw_views(v@)),
        Option::None => Option::None,
    }
}

proof fn lemma_parse_items_snoc(items: Seq<RawItemView>, j: int)
    requires
        0 <= j < items.len(),
        spec_parse_items(items.take(j)) is Ok,
    ensures
        spec_parse_items(items.take(j + 1)) == match spec_parse_content_item(items[j]) {
            Result::Err(()) => Result::Err::<Seq<ContentItemView>, ()>(()),
            Result::Ok(s) => Result::Ok(spec_parse_items(items.take(j))->Ok_0 + s),
        },
    decreases j,
{
    let pre = items.take(j);
    let pre1 = items.take(j + 1);
    if j == 0 {
        assert(pre1.len() == 1);
        assert(pre1[0] == items[0]);
        assert(pre1.drop_first() =~= Seq::<RawItemView>::empty());
        assert(spec_parse_items(Seq::<RawItemView>::empty()) == Result::Ok::<
            Seq<ContentItemView>,
            (),
        >(Seq::empty()));
        assert(pre.len() == 0);
        assert(spec_parse_items(pre) == Result::Ok::<Seq<ContentItemView>, ()>(Seq::empty()));
        if spec_parse_content_item(items[0]) is Ok {
            let s = spec_parse_content_item(items[0])->Ok_0;
            assert(spec_parse_items(pre1) == Result::Ok::<Seq<ContentItemView>, ()>(
                s + Seq::<ContentItemView>::empty(),
            ));
            assert(s + Seq::<ContentItemView>::empty() =~= Seq::<ContentItemView>::empty() + s);
        }
    } else {
        assert(pre[0] == items[0]);
        assert(pre1[0] == items[0]);
        assert(pre.drop_first() =~= items.drop_first().take(j - 1));
        assert(pre1.drop_first() =~= items.drop_first().take(j));
        assert(items.drop_first()[j - 1] == items[j]);
        assert(spec_parse_content_item(pre[0]) is Ok);
        lemma_parse_items_snoc(items.drop_first(), j - 1);
        let s0 = spec_parse_content_item(items[0])->Ok_0;
        let u = spec_parse_items(items.drop_first().take(j - 1))->Ok_0;
        match spec_parse_content_item(items[j]) {
            Result::Err(()) => {},
            Result::Ok(s) => {
                assert(s0 + (u + s) =~= (s0 + u) + s);
            },
        }
    }
}

proof fn lemma_parse_items_err(items: Seq<RawItemView>, j: int)
    requires
        0 < j <= items.len(),
        spec_parse_items(items.take(j)) is Err,
    ensures
        spec_parse_items(items) is Err,
    decreases items.len(),
{
    let pre = items.take(j);
    if spec_parse_content_item(items[0]) is Err {
    } else {
        assert(pre[0] == items[0]);
        if j == 1 {
            assert(pre.drop_first() =~= Seq::<RawItemView>::empty());
            assert(spec_parse_items(Seq::<RawItemView>::empty()) is Ok);
            assert(spec_parse_items(pre.drop_first()) is Ok);
            assert(false);
        } else {
            assert(pre.drop_first() =~= items.drop_first().take(j - 1));
            lemma_parse_items_err(items.drop_first(), j - 1);
        }
    }
}

/// Parses one raw manifest document into a job, as [`spec_parse_document`]
/// says: the output name is required, the content array is required, and
/// every content entry must parse; mapping entries expand in key order.
pub fn parse_document(doc: &RawDoc) -> (r: Result<Config, String>)
    ensures
        match r {
            Result::Ok(c) => spec_parse_document(
                opt_str_view(doc.output),
                opt_str_view(doc.base),
                doc_content_view(*doc),
            ) == Result::Ok::<_, ()>(c@),
            Result::Err(_) => spec_parse_document(
                opt_str_view(doc.output),
                opt_str_view(doc.base),
                doc_content_view(*doc),
            ) is Err,
        },
{
    let output = match &doc.output {
        Some(out) => out,
        None => {
            return Err("'output' must be specified in config".to_owned());
        },
    };
    let items = match &doc.content {
        Some(items) => items,
        None => {
            return Err("'content' must be specified in config as array".to_owned());
        },
    };
    let ghost itemsv = raw_views(items@);
    let mut content: Vec<ContentItem> = Vec::new();
    let mut i: usize = 0;
    proof {
        assert(itemsv.take(0) =~= Seq::empty());
        assert(content_views(content@) =~= Seq::empty());
    }
    while i < items.len()
        invariant
            i <= items.len(),
            items@.len() == itemsv.len(),
            forall|m: int| 0 <= m < itemsv.len() ==> #[trigger] itemsv[m] == items@[m]@,
            opt_str_view(doc.output) is Some,
            doc_content_view(*doc) == Option::Some(itemsv),
            spec_parse_items(itemsv.take(i as int)) == Result::Ok::<_, ()>(
                content_views(content@),
            ),
        decreases items.len() - i,
    {
        let parsed = match parse_content_item(&items[i]) {
            Ok(p) => p,
            Err(e) => {
                proof {
                    lemma_parse_items_snoc(itemsv, i as int);
                    lemma_parse_items_err(itemsv, i as int + 1);
                }
                return Err(e);
            },
        };
        let ghost before = content_views(content@);
        match parsed {
            ParsedContentItem::Single(it) => {
                let ghost itv = it@;
                content.push(it);
                proof {
                    assert(content_views(content@) =~= before.push(itv));
                    assert(before.push(itv) =~= before + seq![itv]);
                }
            },
            ParsedContentItem::Multiple(v) => {
                let mut k: usize = 0;
                let ghost vv = content_views(v@);
                let mut v = v;
                while k < v.len()
                    invariant
                        k <= v.len(),
                        v@.len() == vv.len(),
                        forall|m: int| 0 <= m < vv.len() ==> #[trigger] vv[m] == v@[m]@,
                        content_views(content@) =~= before + vv.take(k as int),
                    decreases v.len() - k,
                {
                    let ghost sofar = content_views(content@);
                    let it = v[k].duplicate_rule();
                    content.push(it);
                    proof {
                        assert(content_views(content@) =~= sofar.push(v@[k as int]@));
                        assert(before + vv.take(k as int + 1) =~= (before + vv.take(
                            k as int,
                        )).push(vv[k as int]));
                    }
                    k = k + 1;
                }
                proof {
                    assert(vv.take(vv.len() as int) =~= vv);
                }
            },
        }
        proof {
            lemma_parse_items_snoc(itemsv, i as int);
        }
        i = i + 1;
    }
    proof {
        assert(itemsv.take(itemsv.len() as int) =~= itemsv);
    }
    let r = Config { output: output.clone(), base: duplicate_opt_string(&doc.base), content };
    proof {
        assert(spec_parse_document(
            opt_str_view(doc.output),
            opt_str_view(doc.base),
            doc_content_view(*doc),
        ) == Result::Ok::<_, ()>(r@));
    }
    Ok(r)
}

/// A copy of an optional string with the same mathematical value.
fn duplicate_opt_string(o: &Option<String>) -> (r: Option<String>)
    ensures
        opt_str_view(r) == opt_str_view(*o),
{
    match o {
        Some(s) => Some(s.clone()),
        None => None,
    }
}

impl ContentItem {
    /// A copy with the same mathematical value.
    pub fn duplicate_rule(&self) -> (r: ContentItem)
        ensures
            r@ == self@,
    {
        match self {
            ContentItem::Unnamed { pattern } => ContentItem::Unnamed { pattern: pattern.clone() },
            ContentItem::Named { name, pattern } => ContentItem::Named {
                name: name.clone(),
                pattern: pattern.clone(),
            },
        }
    }
}

proof fn lemma_parse_pairs_err(kvs: Seq<(Option<Seq<char>>, Option<Seq<char>>)>, j: int)
    requires
        0 < j <= kvs.len(),
        spec_parse_pairs(kvs.take(j)) is Err,
    ensures
        spec_parse_pairs(kvs) is Err,
    decreases kvs.len(),
{
    let pre = kvs.take(j);
    if spec_parse_pair(kvs[0]) is Err {
    } else {
        assert(pre[0] == kvs[0]);
        if j == 1 {
            assert(pre.drop_first() =~= Seq::empty());
            assert(spec_parse_pairs(pre.drop_first()) is Ok);
            assert(false);
        } else {
            assert(pre.drop_first() =~= kvs.drop_first().take(j - 1));
            lemma_parse_pairs_err(kvs.drop_first(), j - 1);
        }
    }
}

} // verus!
