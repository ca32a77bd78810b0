//! yaml / toml / xml → the `Tree` form.
//!
//! yaml and toml are parsed straight into `serde_json::Value` by their own
//! parsers. xml has to be folded by hand: it has attributes and repeated tags,
//! which json does not.

use vstd::prelude::*;
use crate::doc::Doc;
use crate::strs::{owned, chars_of, string_of};
use crate::json::{json_string, json_array, json_object, JsonModel, json_contents, contents_of, entry_contents, pairs_map};
use crate::xmlread::{XmlEvent, XmlTag, xml_events, read_all_xml};
use crate::formats::table::{blank, is_white, is_blank_text};

verus! {

/// What `serde_yaml::from_str::<serde_json::Value>` makes of `src`: what the
/// parsed value holds, or the error's message.
pub uninterp spec fn yaml_parse(src: Seq<char>) -> Result<JsonModel, Seq<char>>;

/// `serde_yaml::from_str::<serde_json::Value>`: the value, or the error's message.
#[verifier::external_body]
fn parse_yaml(src: &str) -> (r: Result<serde_json::Value, String>)
    ensures
        match (r, yaml_parse(src@)) {
            (Ok(v), Ok(m)) => json_contents(v) == m,
            (Err(e), Err(m)) => e@ == m,
            _ => false,
        },
{
    serde_yaml::from_str::<serde_json::Value>(src).map_err(|e| e.to_string())
}

/// What `toml::from_str::<serde_json::Value>` makes of `src`: what the
/// parsed value holds, or the error's message.
pub uninterp spec fn toml_parse(src: Seq<char>) -> Result<JsonModel, Seq<char>>;

/// `toml::from_str::<serde_json::Value>`: the value, or the error's message.
#[verifier::external_body]
fn parse_toml(src: &str) -> (r: Result<serde_json::Value, String>)
    ensures
        match (r, toml_parse(src@)) {
            (Ok(v), Ok(m)) => json_contents(v) == m,
            (Err(e), Err(m)) => e@ == m,
            _ => false,
        },
{
    toml::from_str::<serde_json::Value>(src).map_err(|e| e.to_string())
}

/// `d` is the document for the yaml text `src`: the parsed tree when it parses, else
/// `Unsupported` with the parser's words.
pub open spec fn yaml_document(src: Seq<char>, d: Doc) -> bool {
    match yaml_parse(src) {
        Ok(v) => d matches Doc::Tree { json } && json_contents(json) == v,
        Err(m) => d matches Doc::Unsupported { ext, message } && ext@ == "yaml"@ && message@
            == "Не разобрался в yaml: "@ + m,
    }
}

/// yaml text → `Tree`; text that does not parse gives `Unsupported` with the
/// parser's words.
pub fn from_yaml(src: &str) -> (r: Doc)
    ensures
        yaml_document(src@, r),
{
    match parse_yaml(src) {
        Ok(json) => Doc::Tree { json },
        Err(m) => {
            let mut message = owned("Не разобрался в yaml: ");
            message.append(m.as_str());
            Doc::Unsupported { ext: owned("yaml"), message }
        },
    }
}

/// `d` is the document for the toml text `src`: the parsed tree when it parses, else
/// `Unsupported` with the parser's words.
pub open spec fn toml_document(src: Seq<char>, d: Doc) -> bool {
    match toml_parse(src) {
        Ok(v) => d matches Doc::Tree { json } && json_contents(json) == v,
        Err(m) => d matches Doc::Unsupported { ext, message } && ext@ == "toml"@ && message@
            == "Не разобрался в toml: "@ + m,
    }
}

/// toml text → `Tree`; text that does not parse gives `Unsupported` with the
/// parser's words.
pub fn from_toml(src: &str) -> (r: Doc)
    ensures
        toml_document(src@, r),
{
    match parse_toml(src) {
        Ok(json) => Doc::Tree { json },
        Err(m) => {
            let mut message = owned("Не разобрался в toml: ");
            message.append(m.as_str());
            Doc::Unsupported { ext: owned("toml"), message }
        },
    }
}

/// An XML element as a model: name, attributes, child elements, collected text.
pub struct ElModel {
    pub name: Seq<char>,
    pub attrs: Seq<(Seq<char>, Seq<char>)>,
    pub kids: Seq<ElModel>,
    pub text: Seq<char>,
}

/// A json-like tree as a model: text, an array, or an object whose keys are
/// distinct, in insertion order.
pub enum TreeModel {
    Str(Seq<char>),
    Arr(Seq<TreeModel>),
    Obj(Seq<(Seq<char>, TreeModel)>),
}

/// An XML element being folded into a tree.
#[derive(Debug)]
pub struct El {
    pub name: String,
    pub attrs: Vec<(String, String)>,
    pub kids: Vec<El>,
    pub text: String,
}

/// The tree an XML element becomes.
#[derive(Debug)]
pub enum XmlValue {
    Text(String),
    List(Vec<XmlValue>),
    Node(Vec<(String, XmlValue)>),
}

/// Attribute pairs as character sequences.
pub open spec fn pairs_view(s: Seq<(String, String)>) -> Seq<(Seq<char>, Seq<char>)> {
    s.map_values(|p: (String, String)| (p.0@, p.1@))
}

/// The model of an element.
pub open spec fn el_model(e: El) -> ElModel
    decreases e, 0nat,
{
    ElModel { name: e.name@, attrs: pairs_view(e.attrs@), kids: els_model(e.kids@), text: e.text@ }
}

/// The models of a sequence of elements.
pub open spec fn els_model(s: Seq<El>) -> Seq<ElModel>
    decreases s, 1nat,
{
    if s.len() == 0 {
        Seq::empty()
    } else {
        els_model(s.drop_last()).push(el_model(s.last()))
    }
}

/// The model of a tree.
pub open spec fn tree_of(v: XmlValue) -> TreeModel
    decreases v, 0nat,
{
    match v {
        XmlValue::Text(s) => TreeModel::Str(s@),
        XmlValue::List(items) => TreeModel::Arr(trees_of(items@)),
        XmlValue::Node(entries) => TreeModel::Obj(entries_of(entries@)),
    }
}

/// The models of a sequence of trees.
pub open spec fn trees_of(s: Seq<XmlValue>) -> Seq<TreeModel>
    decreases s, 1nat,
{
    if s.len() == 0 {
        Seq::empty()
    } else {
        trees_of(s.drop_last()).push(tree_of(s.last()))
    }
}

/// The models of a sequence of object entries.
pub open spec fn entries_of(s: Seq<(String, XmlValue)>) -> Seq<(Seq<char>, TreeModel)>
    decreases s, 1nat,
{
    if s.len() == 0 {
        Seq::empty()
    } else {
        entries_of(s.drop_last()).push((s.last().0@, tree_of(s.last().1)))
    }
}

/// Position of the entry with key `k`, or -1.
pub open spec fn key_index(m: Seq<(Seq<char>, TreeModel)>, k: Seq<char>) -> int
    decreases m.len(),
{
    if m.len() == 0 {
        -1
    } else if m.last().0 == k {
        m.len() - 1
    } else {
        key_index(m.drop_last(), k)
    }
}

/// Sets key `k` to `v`: in place when the key is present, appended otherwise
/// (`serde_json::Map::insert`).
pub open spec fn obj_insert(m: Seq<(Seq<char>, TreeModel)>, k: Seq<char>, v: TreeModel) -> Seq<(Seq<char>, TreeModel)> {
    let i = key_index(m, k);
    if i >= 0 {
        m.update(i, (k, v))
    } else {
        m.push((k, v))
    }
}

/// Adds a child's value under its tag name: the first one is stored as is,
/// a second one with the same name turns the entry into an array of both, and
/// later ones are appended to that array.
pub open spec fn merge_kid(m: Seq<(Seq<char>, TreeModel)>, name: Seq<char>, val: TreeModel) -> Seq<(Seq<char>, TreeModel)> {
    let i = key_index(m, name);
    if i < 0 {
        m.push((name, val))
    } else {
        match m[i].1 {
            TreeModel::Arr(a) => m.update(i, (name, TreeModel::Arr(a.push(val)))),
            other => m.update(i, (name, TreeModel::Arr(seq![other, val]))),
        }
    }
}

/// The attributes as entries keyed `@name`.
pub open spec fn with_attrs(m: Seq<(Seq<char>, TreeModel)>, attrs: Seq<(Seq<char>, Seq<char>)>) -> Seq<(Seq<char>, TreeModel)>
    decreases attrs.len(),
{
    if attrs.len() == 0 {
        m
    } else {
        let (k, v) = attrs.last();
        obj_insert(with_attrs(m, attrs.drop_last()), "@"@ + k, TreeModel::Str(v))
    }
}

/// The collected text as the entry `#текст`, when there is any.
pub open spec fn with_text(m: Seq<(Seq<char>, TreeModel)>, t: Seq<char>) -> Seq<(Seq<char>, TreeModel)> {
    if t.len() > 0 {
        obj_insert(m, "#текст"@, TreeModel::Str(t))
    } else {
        m
    }
}

/// The children merged in under their tag names.
pub open spec fn with_kids(m: Seq<(Seq<char>, TreeModel)>, kids: Seq<ElModel>) -> Seq<(Seq<char>, TreeModel)>
    decreases kids, 1nat,
{
    if kids.len() == 0 {
        m
    } else {
        merge_kid(with_kids(m, kids.drop_last()), kids.last().name, value_of(kids.last()))
    }
}

/// The tree value of an element: a leaf without attributes is just its text
/// (so the tree does not drown in brackets); otherwise an object of its
/// attributes (`@name`), its text (`#текст`) and its children, repeated tags
/// gathered into arrays.
pub open spec fn value_of(e: ElModel) -> TreeModel
    decreases e, 0nat,
{
    if e.kids.len() == 0 && e.attrs.len() == 0 {
        TreeModel::Str(e.text)
    } else {
        TreeModel::Obj(with_kids(with_text(with_attrs(Seq::empty(), e.attrs), e.text), e.kids))
    }
}

/// The tree values of a run of elements, in order.
pub open spec fn values_of(kids: Seq<ElModel>) -> Seq<TreeModel> {
    Seq::new(kids.len(), |i: int| value_of(kids[i]))
}

/// Children that share a tag name are gathered under that name: one child is
/// stored as its value, two or more become an array of their values in
/// document order, and the entries already there are left as they were.
pub proof fn law_repeated_tags_gather_in_order(m: Seq<(Seq<char>, TreeModel)>, name: Seq<char>, kids: Seq<ElModel>)
    requires
        key_index(m, name) < 0,
        kids.len() >= 1,
        forall|i: int| 0 <= i < kids.len() ==> #[trigger] kids[i].name == name,
    ensures
        with_kids(m, kids).len() == m.len() + 1,
        with_kids(m, kids).take(m.len() as int) == m,
        with_kids(m, kids)[m.len() as int].0 == name,
        with_kids(m, kids)[m.len() as int].1 == if kids.len() == 1 {
            value_of(kids[0])
        } else {
            TreeModel::Arr(values_of(kids))
        },
    decreases kids.len(),
{
    let d = kids.drop_last();
    let v = value_of(kids.last());
    if kids.len() == 1 {
        assert(with_kids(m, d) == m);
        assert(kids.last() == kids[0]);
        assert(with_kids(m, kids) == m.push((name, v)));
        assert(m.push((name, v)).take(m.len() as int) =~= m);
    } else {
        assert forall|i: int| 0 <= i < d.len() implies #[trigger] d[i].name == name by {
            assert(d[i] == kids[i]);
        }
        law_repeated_tags_gather_in_order(m, name, d);
        let r0 = with_kids(m, d);
        assert(r0.last().0 == name);
        assert(key_index(r0, name) == m.len());
        let r = with_kids(m, kids);
        assert(r == merge_kid(r0, kids.last().name, v));
        assert(kids.last().name == name);
        if d.len() == 1 {
            assert(d[0] == kids[0]);
            assert(r0[m.len() as int].1 == value_of(kids[0]));
            assert(!(value_of(kids[0]) is Arr));
            assert(seq![value_of(kids[0]), v] =~= values_of(kids));
        } else {
            assert(values_of(d).push(v) =~= values_of(kids));
        }
        assert(r.take(m.len() as int) =~= r0.take(m.len() as int));
    }
}

proof fn lemma_attr_keys(attrs: Seq<(Seq<char>, Seq<char>)>)
    ensures
        forall|i: int|
            0 <= i < with_attrs(Seq::empty(), attrs).len() ==> (#[trigger] with_attrs(Seq::empty(), attrs)[i]).0.len()
                > 0 && with_attrs(Seq::empty(), attrs)[i].0[0] == '@',
    decreases attrs.len(),
{
    reveal_strlit("@");
    if attrs.len() > 0 {
        lemma_attr_keys(attrs.drop_last());
        let m = with_attrs(Seq::empty(), attrs.drop_last());
        let (k, v) = attrs.last();
        let key = "@"@ + k;
        assert(key[0] == '@');
        lemma_key_index_bounds(m, key);
        let r = obj_insert(m, key, TreeModel::Str(v));
        assert forall|i: int| 0 <= i < r.len() implies (#[trigger] r[i]).0.len() > 0 && r[i].0[0] == '@' by {
            if i < m.len() && i != key_index(m, key) {
                assert(r[i] == m[i]);
            }
        }
    }
}

proof fn lemma_kids_keep(m: Seq<(Seq<char>, TreeModel)>, kids: Seq<ElModel>, i: int)
    requires
        0 <= i < m.len(),
        forall|k: int| 0 <= k < kids.len() ==> #[trigger] kids[k].name != m[i].0,
    ensures
        with_kids(m, kids).len() >= m.len(),
        with_kids(m, kids)[i] == m[i],
    decreases kids.len(),
{
    if kids.len() > 0 {
        let d = kids.drop_last();
        assert forall|k: int| 0 <= k < d.len() implies #[trigger] d[k].name != m[i].0 by {
            assert(d[k] == kids[k]);
        }
        lemma_kids_keep(m, d, i);
        let m2 = with_kids(m, d);
        let name = kids.last().name;
        assert(kids.last() == kids[kids.len() - 1]);
        lemma_key_index_bounds(m2, name);
    }
}

/// The text of an XML element is never lost. A leaf without attributes is
/// just its text; an element with attributes or children keeps its non-empty
/// text under the key `#текст`, next to them. (Tag names cannot start with `#`,
/// so no child can take that key.)
pub proof fn law_text_never_lost(e: ElModel)
    requires
        forall|k: int| 0 <= k < e.kids.len() ==> #[trigger] e.kids[k].name != "#текст"@,
    ensures
        e.kids.len() == 0 && e.attrs.len() == 0 ==> value_of(e) == TreeModel::Str(e.text),
        !(e.kids.len() == 0 && e.attrs.len() == 0) && e.text.len() > 0 ==> value_of(e) is Obj && (value_of(
            e,
        )->Obj_0).contains(("#текст"@, TreeModel::Str(e.text))),
{
    reveal_strlit("#текст");
    if !(e.kids.len() == 0 && e.attrs.len() == 0) && e.text.len() > 0 {
        let a = with_attrs(Seq::empty(), e.attrs);
        lemma_attr_keys(e.attrs);
        lemma_key_index_bounds(a, "#текст"@);
        if key_index(a, "#текст"@) >= 0 {
            assert(a[key_index(a, "#текст"@)].0[0] == '@');
            assert(false);
        }
        let t = with_text(a, e.text);
        assert(t == a.push(("#текст"@, TreeModel::Str(e.text))));
        assert(t[a.len() as int] == ("#текст"@, TreeModel::Str(e.text)));
        lemma_kids_keep(t, e.kids, a.len() as int);
        let m = with_kids(t, e.kids);
        assert(m[a.len() as int] == ("#текст"@, TreeModel::Str(e.text)));
        assert(value_of(e) == TreeModel::Obj(m));
        assert(0 <= a.len() < m.len());
        assert(m.contains(("#текст"@, TreeModel::Str(e.text))));
    }
}

proof fn lemma_entries_of(s: Seq<(String, XmlValue)>)
    ensures
        entries_of(s).len() == s.len(),
        forall|i: int| 0 <= i < s.len() ==> #[trigger] entries_of(s)[i] == (s[i].0@, tree_of(s[i].1)),
    decreases s.len(),
{
    if s.len() > 0 {
        lemma_entries_of(s.drop_last());
        assert forall|i: int| 0 <= i < s.len() implies #[trigger] entries_of(s)[i] == (s[i].0@, tree_of(
            s[i].1,
        )) by {
            if i < s.len() - 1 {
                assert(s.drop_last()[i] == s[i]);
            }
        }
    }
}

proof fn lemma_entries_update(s: Seq<(String, XmlValue)>, i: int, x: (String, XmlValue))
    requires
        0 <= i < s.len(),
    ensures
        entries_of(s.update(i, x)) == entries_of(s).update(i, (x.0@, tree_of(x.1))),
{
    lemma_entries_of(s);
    lemma_entries_of(s.update(i, x));
    assert(entries_of(s.update(i, x)) =~= entries_of(s).update(i, (x.0@, tree_of(x.1))));
}

proof fn lemma_entries_push(s: Seq<(String, XmlValue)>, x: (String, XmlValue))
    ensures
        entries_of(s.push(x)) == entries_of(s).push((x.0@, tree_of(x.1))),
{
    assert(s.push(x).drop_last() =~= s);
}

proof fn lemma_els_model(s: Seq<El>)
    ensures
        els_model(s).len() == s.len(),
        forall|i: int| 0 <= i < s.len() ==> #[trigger] els_model(s)[i] == el_model(s[i]),
    decreases s.len(),
{
    if s.len() > 0 {
        lemma_els_model(s.drop_last());
        assert forall|i: int| 0 <= i < s.len() implies #[trigger] els_model(s)[i] == el_model(s[i]) by {
            if i < s.len() - 1 {
                assert(s.drop_last()[i] == s[i]);
            }
        }
    }
}

proof fn lemma_key_index_bounds(m: Seq<(Seq<char>, TreeModel)>, k: Seq<char>)
    ensures
        -1 <= key_index(m, k) < m.len(),
        key_index(m, k) >= 0 ==> m[key_index(m, k)].0 == k,
        key_index(m, k) == -1 ==> forall|i: int| 0 <= i < m.len() ==> #[trigger] m[i].0 != k,
        key_index(m, k) >= 0 ==> forall|i: int| key_index(m, k) < i < m.len() ==> #[trigger] m[i].0 != k,
    decreases m.len(),
{
    if m.len() > 0 && m.last().0 != k {
        lemma_key_index_bounds(m.drop_last(), k);
        assert forall|i: int| 0 <= i < m.len() - 1 implies #[trigger] m[i] == m.drop_last()[i] by {}
    }
}

/// The position of key `k` among the entries.
fn find_key(m: &Vec<(String, XmlValue)>, k: &str) -> (r: Option<usize>)
    ensures
        match r {
            Some(i) => i < m.len() && key_index(entries_of(m@), k@) == i as int,
            None => key_index(entries_of(m@), k@) == -1,
        },
{
    proof {
        lemma_entries_of(m@);
        lemma_key_index_bounds(entries_of(m@), k@);
    }
    let mut i: usize = m.len();
    while i > 0
        invariant
            i <= m.len(),
            entries_of(m@).len() == m.len(),
            forall|j: int| 0 <= j < m.len() ==> #[trigger] entries_of(m@)[j] == (m@[j].0@, tree_of(m@[j].1)),
            forall|j: int| i <= j < m.len() ==> m@[j].0@ != k@,
            -1 <= key_index(entries_of(m@), k@) < m.len(),
            key_index(entries_of(m@), k@) >= 0 ==> entries_of(m@)[key_index(entries_of(m@), k@)].0 == k@,
            key_index(entries_of(m@), k@) == -1 ==> forall|j: int| 0 <= j < m.len() ==> #[trigger] entries_of(m@)[j].0 != k@,
            key_index(entries_of(m@), k@) >= 0 ==> forall|j: int| key_index(entries_of(m@), k@) < j < m.len() ==> #[trigger] entries_of(m@)[j].0 != k@,
        decreases i,
    {
        if crate::strs::str_eq(m[i - 1].0.as_str(), k) {
            assert(entries_of(m@)[i - 1].0 == k@);
            return Some(i - 1);
        }
        i = i - 1;
    }
    proof {
        if key_index(entries_of(m@), k@) >= 0 {
            let j = key_index(entries_of(m@), k@);
            assert(entries_of(m@)[j].0 == m@[j].0@);
        }
    }
    None
}

/// Sets key `k` to `v` (see `obj_insert`).
fn obj_put(m: &mut Vec<(String, XmlValue)>, k: String, v: XmlValue)
    ensures
        entries_of(final(m)@) == obj_insert(entries_of(old(m)@), k@, tree_of(v)),
{
    match find_key(m, k.as_str()) {
        Some(i) => {
            let ghost before = m@;
            let _ = m.remove(i);
            m.insert(i, (k, v));
            proof {
                assert(m@ =~= before.update(i as int, (k, v)));
                lemma_entries_update(before, i as int, (k, v));
            }
        },
        None => {
            let ghost before = m@;
            m.push((k, v));
            proof {
                lemma_entries_push(before, (k, v));
            }
        },
    }
}

/// Adds a child's value under its tag name (see `merge_kid`).
fn merge_into(m: &mut Vec<(String, XmlValue)>, name: String, val: XmlValue)
    ensures
        entries_of(final(m)@) == merge_kid(entries_of(old(m)@), name@, tree_of(val)),
{
    let ghost tv = tree_of(val);
    match find_key(m, name.as_str()) {
        None => {
            let ghost before = m@;
            m.push((name, val));
            proof {
                lemma_entries_push(before, (name, val));
            }
        },
        Some(i) => {
            let ghost before = m@;
            proof {
                lemma_entries_of(before);
            }
            let (_, old) = m.remove(i);
            let merged = match old {
                XmlValue::List(items) => {
                    let mut a = items;
                    let ghost prev = a@;
                    a.push(val);
                    assert(a@.drop_last() =~= prev);
                    XmlValue::List(a)
                },
                other => {
                    let mut a: Vec<XmlValue> = Vec::new();
                    a.push(other);
                    a.push(val);
                    proof {
                        let s1 = a@.drop_last();
                        assert(s1.drop_last() =~= Seq::<XmlValue>::empty());
                        assert(s1.last() == other);
                        assert(trees_of(s1.drop_last()) =~= Seq::<TreeModel>::empty());
                        assert(trees_of(s1) =~= seq![tree_of(other)]);
                        assert(a@.last() == val);
                        assert(trees_of(a@) =~= trees_of(s1).push(tree_of(val)));
                        assert(trees_of(a@) =~= seq![tree_of(other), tree_of(val)]);
                    }
                    XmlValue::List(a)
                },
            };
            m.insert(i, (name, merged));
            proof {
                assert(m@ =~= before.update(i as int, (name, merged)));
                lemma_entries_update(before, i as int, (name, merged));
            }
        },
    }
}

/// The tree value of an element (see `value_of`).
pub fn into_value(e: &El) -> (r: XmlValue)
    ensures
        tree_of(r) == value_of(el_model(*e)),
    decreases e,
{
    if e.kids.len() == 0 && e.attrs.len() == 0 {
        proof {
            lemma_els_model(e.kids@);
        }
        return XmlValue::Text(e.text.clone());
    }
    let ghost em = el_model(*e);
    let mut m: Vec<(String, XmlValue)> = Vec::new();
    let mut i: usize = 0;
    while i < e.attrs.len()
        invariant
            i <= e.attrs.len(),
            em == el_model(*e),
            entries_of(m@) == with_attrs(Seq::empty(), em.attrs.take(i as int)),
        decreases e.attrs.len() - i,
    {
        let mut key = crate::strs::owned("@");
        key.append(e.attrs[i].0.as_str());
        let val = XmlValue::Text(e.attrs[i].1.clone());
        proof {
            assert(em.attrs.take(i + 1).drop_last() =~= em.attrs.take(i as int));
            assert(em.attrs.take(i + 1).last() == (e.attrs@[i as int].0@, e.attrs@[i as int].1@));
        }
        obj_put(&mut m, key, val);
        i = i + 1;
    }
    assert(em.attrs.take(e.attrs.len() as int) =~= em.attrs);
    if !e.text.as_str().is_empty() {
        obj_put(&mut m, crate::strs::owned("#текст"), XmlValue::Text(e.text.clone()));
    }
    let ghost base = entries_of(m@);
    assert(base == with_text(with_attrs(Seq::empty(), em.attrs), em.text));
    proof {
        lemma_els_model(e.kids@);
    }
    let mut j: usize = 0;
    while j < e.kids.len()
        invariant
            j <= e.kids.len(),
            em == el_model(*e),
            em.kids.len() == e.kids.len(),
            forall|k: int| 0 <= k < e.kids.len() ==> #[trigger] em.kids[k] == el_model(e.kids@[k]),
            entries_of(m@) == with_kids(base, em.kids.take(j as int)),
        decreases e.kids.len() - j,
    {
        let kid = &e.kids[j];
        let v = into_value(kid);
        proof {
            assert(em.kids.take(j + 1).drop_last() =~= em.kids.take(j as int));
            assert(em.kids.take(j + 1).last() == el_model(e.kids@[j as int]));
        }
        merge_into(&mut m, kid.name.clone(), v);
        j = j + 1;
    }
    assert(em.kids.take(e.kids.len() as int) =~= em.kids);
    XmlValue::Node(m)
}

/// `s` without leading white space.
pub open spec fn trim_front(s: Seq<char>) -> Seq<char>
    decreases s.len(),
{
    if s.len() > 0 && is_white(s[0]) {
        trim_front(s.drop_first())
    } else {
        s
    }
}

/// `s` without trailing white space.
pub open spec fn trim_back(s: Seq<char>) -> Seq<char>
    decreases s.len(),
{
    if s.len() > 0 && is_white(s.last()) {
        trim_back(s.drop_last())
    } else {
        s
    }
}

/// `str::trim`: `s` without leading and trailing white space.
pub open spec fn trimmed(s: Seq<char>) -> Seq<char> {
    trim_back(trim_front(s))
}

/// `str::trim`.
pub fn trim_text(s: &str) -> (r: String)
    ensures
        r@ == trimmed(s@),
{
    let v = chars_of(s);
    let mut a: usize = 0;
    assert(v@.subrange(0, v.len() as int) =~= v@);
    while a < v.len() && crate::formats::markup::white_char(v[a])
        invariant
            a <= v.len(),
            trim_front(s@) == trim_front(v@.subrange(a as int, v.len() as int)),
            v@ == s@,
        decreases v.len() - a,
    {
        assert(v@.subrange(a as int, v.len() as int).drop_first() =~= v@.subrange(a + 1, v.len() as int));
        a = a + 1;
    }
    let mut b: usize = v.len();
    assert(trim_front(s@) == v@.subrange(a as int, b as int));
    while b > a && crate::formats::markup::white_char(v[b - 1])
        invariant
            a <= b <= v.len(),
            trimmed(s@) == trim_back(v@.subrange(a as int, b as int)),
        decreases b,
    {
        assert(v@.subrange(a as int, b as int).drop_last() =~= v@.subrange(a as int, b - 1));
        b = b - 1;
    }
    let r = crate::doc::slice_chars(&v, a, b);
    string_of(&r)
}

/// Where the folding of XML events into elements stands: the open elements
/// (innermost last) and the finished root, if any.
pub struct XmlBuild {
    pub stack: Seq<ElModel>,
    pub root: Option<ElModel>,
}

/// A new element for a tag, with no children and no text yet.
pub open spec fn fresh_el(t: XmlTag) -> ElModel {
    ElModel { name: t.name@, attrs: pairs_view(t.attrs@), kids: Seq::empty(), text: Seq::empty() }
}

/// A finished element goes to the innermost open element, or becomes the root.
pub open spec fn attach(b: XmlBuild, el: ElModel) -> XmlBuild {
    if b.stack.len() == 0 {
        XmlBuild { root: Some(el), ..b }
    } else {
        let top = b.stack.last();
        XmlBuild {
            stack: b.stack.update(b.stack.len() - 1, ElModel { kids: top.kids.push(el), ..top }),
            ..b
        }
    }
}

/// One XML event: a start tag opens an element; a self-closing tag is finished
/// at once (so following siblings do not become its children); non-blank text
/// is added, trimmed, to the innermost open element; an end tag finishes the
/// innermost open element.
pub open spec fn xml_step(b: XmlBuild, e: XmlEvent) -> XmlBuild {
    match e {
        XmlEvent::Start(t) => XmlBuild { stack: b.stack.push(fresh_el(t)), ..b },
        XmlEvent::Empty(t) => attach(b, fresh_el(t)),
        XmlEvent::Text(t) => if b.stack.len() > 0 && !blank(t@) {
            let top = b.stack.last();
            XmlBuild {
                stack: b.stack.update(
                    b.stack.len() - 1,
                    ElModel { text: top.text + trimmed(t@), ..top },
                ),
                ..b
            }
        } else {
            b
        },
        XmlEvent::End(_) => if b.stack.len() > 0 {
            attach(XmlBuild { stack: b.stack.drop_last(), ..b }, b.stack.last())
        } else {
            b
        },
        _ => b,
    }
}

/// The events folded in order, up to the end of the document; an error gives
/// its message.
pub open spec fn xml_fold(b: XmlBuild, evs: Seq<XmlEvent>) -> Result<XmlBuild, Seq<char>>
    decreases evs.len(),
{
    if evs.len() == 0 {
        Ok(b)
    } else {
        match evs[0] {
            XmlEvent::Eof => Ok(b),
            XmlEvent::Error(m) => Err(m@),
            e => xml_fold(xml_step(b, e), evs.drop_first()),
        }
    }
}

/// Elements still open at the end are finished from the innermost outwards;
/// the result is the root.
pub open spec fn unwind(b: XmlBuild) -> Option<ElModel>
    decreases b.stack.len(),
{
    if b.stack.len() == 0 {
        b.root
    } else {
        unwind(attach(XmlBuild { stack: b.stack.drop_last(), ..b }, b.stack.last()))
    }
}

/// The root element of an XML document given its events, or the reader's
/// error message.
pub open spec fn xml_root(evs: Seq<XmlEvent>) -> Result<Option<ElModel>, Seq<char>> {
    match xml_fold(XmlBuild { stack: Seq::empty(), root: None }, evs) {
        Err(m) => Err(m),
        Ok(b) => Ok(unwind(b)),
    }
}

/// The model of the exec state.
pub open spec fn build_model(stack: Seq<El>, root: Option<El>) -> XmlBuild {
    XmlBuild {
        stack: els_model(stack),
        root: match root {
            Some(e) => Some(el_model(e)),
            None => None,
        },
    }
}

fn copy_pairs(v: &Vec<(String, String)>) -> (r: Vec<(String, String)>)
    ensures
        r@ == v@,
{
    let mut r: Vec<(String, String)> = Vec::new();
    let mut i: usize = 0;
    while i < v.len()
        invariant
            i <= v.len(),
            r@ == v@.take(i as int),
        decreases v.len() - i,
    {
        let p = (v[i].0.clone(), v[i].1.clone());
        r.push(p);
        assert(v@.take(i + 1) =~= v@.take(i as int).push(v@[i as int]));
        i = i + 1;
    }
    assert(v@.take(v.len() as int) =~= v@);
    r
}

proof fn lemma_els_push(s: Seq<El>, x: El)
    ensures
        els_model(s.push(x)) == els_model(s).push(el_model(x)),
{
    assert(s.push(x).drop_last() =~= s);
}

fn fresh(t: &XmlTag) -> (r: El)
    ensures
        el_model(r) == fresh_el(*t),
{
    let r = El { name: t.name.clone(), attrs: copy_pairs(&t.attrs), kids: Vec::new(), text: String::new() };
    assert(els_model(r.kids@) =~= Seq::<ElModel>::empty());
    r
}

fn attach_el(stack: &mut Vec<El>, root: &mut Option<El>, el: El)
    ensures
        build_model(final(stack)@, *final(root)) == attach(build_model(old(stack)@, *old(root)), el_model(el)),
        final(stack)@.len() == old(stack)@.len(),
{
    let ghost em = el_model(el);
    match stack.pop() {
        None => {
            *root = Some(el);
        },
        Some(top) => {
            let ghost rest = stack@;
            let ghost orig = top;
            let ghost tm = el_model(top);
            let mut top = top;
            let ghost kids0 = top.kids@;
            top.kids.push(el);
            proof {
                lemma_els_push(kids0, el);
            }
            let ghost t2 = top;
            assert(el_model(t2) == ElModel { kids: tm.kids.push(em), ..tm });
            stack.push(top);
            proof {
                assert(old(stack)@ =~= rest.push(orig));
                lemma_els_push(rest, orig);
                lemma_els_push(rest, t2);
                assert(stack@ =~= rest.push(t2));
                lemma_els_model(rest);
                assert(els_model(stack@) == els_model(rest).push(el_model(t2)));
                assert(els_model(old(stack)@) == els_model(rest).push(tm));
                assert(els_model(stack@) =~= els_model(old(stack)@).update(
                    old(stack)@.len() - 1,
                    ElModel { kids: tm.kids.push(em), ..tm },
                ));
            }
        },
    }
}

fn append_text(stack: &mut Vec<El>, piece: &str)
    requires
        old(stack)@.len() > 0,
    ensures
        els_model(final(stack)@) == els_model(old(stack)@).update(
            old(stack)@.len() - 1,
            ElModel { text: el_model(old(stack)@.last()).text + piece@, ..el_model(old(stack)@.last()) },
        ),
        final(stack)@.len() == old(stack)@.len(),
{
    let ghost rest = old(stack)@.drop_last();
    let ghost orig = old(stack)@.last();
    match stack.pop() {
        None => {},
        Some(top) => {
            let mut top = top;
            top.text.append(piece);
            let ghost t2 = top;
            stack.push(top);
            proof {
                assert(old(stack)@ =~= rest.push(orig));
                lemma_els_push(rest, orig);
                lemma_els_push(rest, t2);
                assert(stack@ =~= rest.push(t2));
                lemma_els_model(rest);
                assert(els_model(stack@) =~= els_model(old(stack)@).update(
                    old(stack)@.len() - 1,
                    ElModel { text: el_model(orig).text + piece@, ..el_model(orig) },
                ));
            }
        },
    }
}

proof fn lemma_els_drop_last(s: Seq<El>)
    requires
        s.len() > 0,
    ensures
        els_model(s.drop_last()) == els_model(s).drop_last(),
        els_model(s).last() == el_model(s.last()),
        els_model(s).len() == s.len(),
{
    lemma_els_model(s);
    assert(els_model(s.drop_last()) =~= els_model(s).drop_last());
}

/// The root element of an XML document (see `xml_root`) given its events:
/// `Err` with the reader's message when it failed, `Ok(None)` when there is no
/// element at all.
pub fn xml_tree(events: &Vec<XmlEvent>) -> (r: Result<Option<El>, String>)
    ensures
        match (r, xml_root(events@)) {
            (Err(m), Err(mv)) => m@ == mv,
            (Ok(Some(e)), Ok(Some(ev))) => el_model(e) == ev,
            (Ok(None), Ok(None)) => true,
            _ => false,
        },
{
    let mut stack: Vec<El> = Vec::new();
    let mut root: Option<El> = None;
    let mut i: usize = 0;
    let ghost start = XmlBuild { stack: Seq::empty(), root: None };
    assert(events@.skip(0) =~= events@);
    assert(build_model(stack@, root) == start);
    loop
        invariant
            i <= events.len(),
            xml_fold(start, events@) == xml_fold(build_model(stack@, root), events@.skip(i as int)),
            start == (XmlBuild { stack: Seq::empty(), root: None }),
        ensures
            xml_fold(start, events@) == Ok::<XmlBuild, Seq<char>>(build_model(stack@, root)),
        decreases events.len() - i,
    {
        if i >= events.len() {
            assert(events@.skip(i as int) =~= Seq::<XmlEvent>::empty());
            break;
        }
        let ghost rest = events@.skip(i as int);
        let ghost b = build_model(stack@, root);
        assert(rest[0] == events@[i as int]);
        assert(rest.drop_first() =~= events@.skip(i + 1));
        match &events[i] {
            XmlEvent::Start(t) => {
                let el = fresh(t);
                let ghost before = stack@;
                stack.push(el);
                proof {
                    lemma_els_push(before, el);
                }
            },
            XmlEvent::Empty(t) => {
                let el = fresh(t);
                attach_el(&mut stack, &mut root, el);
            },
            XmlEvent::Text(t) => {
                if stack.len() > 0 && !is_blank_text(t.as_str()) {
                    let piece = trim_text(t.as_str());
                    proof {
                        lemma_els_drop_last(stack@);
                    }
                    append_text(&mut stack, piece.as_str());
                }
            },
            XmlEvent::End(_) => {
                let ghost before = stack@;
                match stack.pop() {
                    Some(done) => {
                        proof {
                            lemma_els_drop_last(before);
                        }
                        attach_el(&mut stack, &mut root, done);
                    },
                    None => {},
                }
            },
            XmlEvent::Eof => {
                assert(events@.skip(i as int)[0] is Eof);
                break;
            },
            XmlEvent::Error(m) => {
                return Err(m.clone());
            },
            XmlEvent::Other => {},
        }
        i = i + 1;
    }
    assert(xml_root(events@) == Ok::<Option<ElModel>, Seq<char>>(unwind(build_model(stack@, root))));
    // elements left open are finished from the innermost outwards
    loop
        invariant
            xml_root(events@) == Ok::<Option<ElModel>, Seq<char>>(unwind(build_model(stack@, root))),
        ensures
            xml_root(events@) == Ok::<Option<ElModel>, Seq<char>>(unwind(build_model(stack@, root))),
            stack@.len() == 0,
        decreases stack.len(),
    {
        let ghost before = stack@;
        match stack.pop() {
            None => {
                break;
            },
            Some(done) => {
                proof {
                    lemma_els_drop_last(before);
                }
                attach_el(&mut stack, &mut root, done);
            },
        }
    }
    assert(els_model(stack@) =~= Seq::<ElModel>::empty());
    Ok(root)
}

/// The whole tree of an XML document: an object with the root's tag name as its
/// only key and the root's value under it.
pub open spec fn document_tree(root: ElModel) -> TreeModel {
    TreeModel::Obj(seq![(root.name, value_of(root))])
}

/// The tree shown for an XML document with the given root element.
pub fn document_value(root: &El) -> (r: XmlValue)
    ensures
        tree_of(r) == document_tree(el_model(*root)),
{
    let v = into_value(root);
    let mut entries: Vec<(String, XmlValue)> = Vec::new();
    entries.push((root.name.clone(), v));
    proof {
        assert(entries@.drop_last() =~= Seq::<(String, XmlValue)>::empty());
        assert(entries_of(entries@.drop_last()) =~= Seq::<(Seq<char>, TreeModel)>::empty());
        assert(entries_of(entries@) =~= seq![(root.name@, tree_of(v))]);
    }
    XmlValue::Node(entries)
}

/// What the json of a tree holds: strings, arrays in order, and objects whose
/// keys map to their values.
pub open spec fn json_model(t: TreeModel) -> JsonModel
    decreases t, 0nat,
{
    match t {
        TreeModel::Str(s) => JsonModel::Str(s),
        TreeModel::Arr(a) => JsonModel::Arr(json_list(a)),
        TreeModel::Obj(m) => JsonModel::Obj(json_entries(m)),
    }
}

/// What the json of each of a sequence of trees holds.
pub open spec fn json_list(s: Seq<TreeModel>) -> Seq<JsonModel>
    decreases s, 1nat,
{
    if s.len() == 0 {
        Seq::empty()
    } else {
        json_list(s.drop_last()).push(json_model(s.last()))
    }
}

/// The keys of object entries mapped to what their values' json holds.
pub open spec fn json_entries(s: Seq<(Seq<char>, TreeModel)>) -> Map<Seq<char>, JsonModel>
    decreases s, 1nat,
{
    if s.len() == 0 {
        Map::empty()
    } else {
        json_entries(s.drop_last()).insert(s.last().0, json_model(s.last().1))
    }
}

/// No key occurs twice among object entries.
pub open spec fn distinct_keys(m: Seq<(Seq<char>, TreeModel)>) -> bool {
    forall|i: int, j: int| 0 <= i < j < m.len() ==> m[i].0 != m[j].0
}

/// Every object in the tree has distinct keys.
pub open spec fn tree_ok(t: TreeModel) -> bool
    decreases t, 0nat,
{
    match t {
        TreeModel::Str(_) => true,
        TreeModel::Arr(a) => list_ok(a),
        TreeModel::Obj(m) => distinct_keys(m) && entries_ok(m),
    }
}

/// Every tree of the sequence is `tree_ok`.
pub open spec fn list_ok(s: Seq<TreeModel>) -> bool
    decreases s, 1nat,
{
    s.len() > 0 ==> list_ok(s.drop_last()) && tree_ok(s.last())
}

/// The value of every entry is `tree_ok`.
pub open spec fn entries_ok(s: Seq<(Seq<char>, TreeModel)>) -> bool
    decreases s, 1nat,
{
    s.len() > 0 ==> entries_ok(s.drop_last()) && tree_ok(s.last().1)
}

proof fn lemma_list_ok(s: Seq<TreeModel>)
    ensures
        list_ok(s) <==> forall|i: int| 0 <= i < s.len() ==> tree_ok(#[trigger] s[i]),
    decreases s.len(),
{
    if s.len() > 0 {
        let d = s.drop_last();
        lemma_list_ok(d);
        if list_ok(s) {
            assert forall|i: int| 0 <= i < s.len() implies tree_ok(#[trigger] s[i]) by {
                if i < s.len() - 1 {
                    assert(d[i] == s[i]);
                }
            }
        }
        if forall|i: int| 0 <= i < s.len() ==> tree_ok(#[trigger] s[i]) {
            assert forall|i: int| 0 <= i < d.len() implies tree_ok(#[trigger] d[i]) by {
                assert(d[i] == s[i]);
            }
            assert(tree_ok(s[s.len() - 1]));
        }
    }
}

proof fn lemma_entries_ok(s: Seq<(Seq<char>, TreeModel)>)
    ensures
        entries_ok(s) <==> forall|i: int| 0 <= i < s.len() ==> tree_ok(#[trigger] s[i].1),
    decreases s.len(),
{
    if s.len() > 0 {
        let d = s.drop_last();
        lemma_entries_ok(d);
        if entries_ok(s) {
            assert forall|i: int| 0 <= i < s.len() implies tree_ok(#[trigger] s[i].1) by {
                if i < s.len() - 1 {
                    assert(d[i] == s[i]);
                }
            }
        }
        if forall|i: int| 0 <= i < s.len() ==> tree_ok(#[trigger] s[i].1) {
            assert forall|i: int| 0 <= i < d.len() implies tree_ok(#[trigger] d[i].1) by {
                assert(d[i] == s[i]);
            }
            assert(tree_ok(s[s.len() - 1].1));
        }
    }
}

/// Setting a key keeps the keys distinct and the values well formed.
proof fn lemma_obj_insert_ok(m: Seq<(Seq<char>, TreeModel)>, k: Seq<char>, v: TreeModel)
    requires
        distinct_keys(m),
        entries_ok(m),
        tree_ok(v),
    ensures
        distinct_keys(obj_insert(m, k, v)),
        entries_ok(obj_insert(m, k, v)),
{
    lemma_key_index_bounds(m, k);
    lemma_entries_ok(m);
    let r = obj_insert(m, k, v);
    assert forall|i: int| 0 <= i < r.len() implies tree_ok(#[trigger] r[i].1) by {
        if i < m.len() && i != key_index(m, k) {
            assert(r[i] == m[i]);
        }
    }
    lemma_entries_ok(r);
}

/// Merging a child keeps the keys distinct and the values well formed.
proof fn lemma_merge_kid_ok(m: Seq<(Seq<char>, TreeModel)>, name: Seq<char>, val: TreeModel)
    requires
        distinct_keys(m),
        entries_ok(m),
        tree_ok(val),
    ensures
        distinct_keys(merge_kid(m, name, val)),
        entries_ok(merge_kid(m, name, val)),
{
    lemma_key_index_bounds(m, name);
    lemma_entries_ok(m);
    let i = key_index(m, name);
    let r = merge_kid(m, name, val);
    if i >= 0 {
        assert(tree_ok(m[i].1));
        match m[i].1 {
            TreeModel::Arr(a) => {
                assert(a.push(val).drop_last() =~= a);
                assert(tree_ok(TreeModel::Arr(a.push(val))));
            },
            other => {
                let l = seq![other, val];
                assert(l[0] == other && l[1] == val);
                lemma_list_ok(l);
                assert(tree_ok(TreeModel::Arr(l)));
            },
        }
    }
    assert forall|j: int| 0 <= j < r.len() implies tree_ok(#[trigger] r[j].1) by {
        if j < m.len() && j != i {
            assert(r[j] == m[j]);
        }
    }
    lemma_entries_ok(r);
}

proof fn lemma_attrs_ok(m: Seq<(Seq<char>, TreeModel)>, attrs: Seq<(Seq<char>, Seq<char>)>)
    requires
        distinct_keys(m),
        entries_ok(m),
    ensures
        distinct_keys(with_attrs(m, attrs)),
        entries_ok(with_attrs(m, attrs)),
    decreases attrs.len(),
{
    if attrs.len() > 0 {
        lemma_attrs_ok(m, attrs.drop_last());
        let (k, v) = attrs.last();
        lemma_obj_insert_ok(with_attrs(m, attrs.drop_last()), "@"@ + k, TreeModel::Str(v));
    }
}

/// The value of an element is well formed: every object in it has distinct keys.
proof fn lemma_value_ok(e: ElModel)
    ensures
        tree_ok(value_of(e)),
    decreases e, 0nat,
{
    if !(e.kids.len() == 0 && e.attrs.len() == 0) {
        let empty = Seq::<(Seq<char>, TreeModel)>::empty();
        lemma_attrs_ok(empty, e.attrs);
        let a = with_attrs(empty, e.attrs);
        if e.text.len() > 0 {
            lemma_obj_insert_ok(a, "#текст"@, TreeModel::Str(e.text));
        }
        lemma_kids_ok(with_text(a, e.text), e.kids);
    }
}

proof fn lemma_kids_ok(m: Seq<(Seq<char>, TreeModel)>, kids: Seq<ElModel>)
    requires
        distinct_keys(m),
        entries_ok(m),
    ensures
        distinct_keys(with_kids(m, kids)),
        entries_ok(with_kids(m, kids)),
    decreases kids, 1nat,
{
    if kids.len() > 0 {
        lemma_kids_ok(m, kids.drop_last());
        lemma_value_ok(kids.last());
        lemma_merge_kid_ok(with_kids(m, kids.drop_last()), kids.last().name, value_of(kids.last()));
    }
}

/// The tree of a document is well formed.
proof fn lemma_document_ok(root: ElModel)
    ensures
        tree_ok(document_tree(root)),
{
    lemma_value_ok(root);
    let m = seq![(root.name, value_of(root))];
    assert(m[0].1 == value_of(root));
    lemma_entries_ok(m);
}

proof fn lemma_trees_of(s: Seq<XmlValue>)
    ensures
        trees_of(s).len() == s.len(),
        forall|i: int| 0 <= i < s.len() ==> #[trigger] trees_of(s)[i] == tree_of(s[i]),
    decreases s.len(),
{
    if s.len() > 0 {
        lemma_trees_of(s.drop_last());
        assert forall|i: int| 0 <= i < s.len() implies #[trigger] trees_of(s)[i] == tree_of(s[i]) by {
            if i < s.len() - 1 {
                assert(s.drop_last()[i] == s[i]);
            }
        }
    }
}

/// The tree as a `serde_json::Value`: texts as strings, lists as arrays,
/// nodes as objects. For a tree whose objects have distinct keys (as every
/// tree made from a document does), the json holds exactly the tree.
pub fn to_json(v: &XmlValue) -> (r: serde_json::Value)
    ensures
        tree_ok(tree_of(*v)) ==> json_contents(r) == json_model(tree_of(*v)),
    decreases v,
{
    match v {
        XmlValue::Text(s) => json_string(s.clone()),
        XmlValue::List(items) => {
            let ghost ts = trees_of(items@);
            proof {
                lemma_trees_of(items@);
                lemma_list_ok(ts);
            }
            let mut out: Vec<serde_json::Value> = Vec::new();
            let mut i: usize = 0;
            while i < items.len()
                invariant
                    i <= items.len(),
                    *v == XmlValue::List(*items),
                    ts == trees_of(items@),
                    ts.len() == items.len(),
                    forall|k: int| 0 <= k < items.len() ==> #[trigger] ts[k] == tree_of(items@[k]),
                    list_ok(ts) <==> forall|k: int| 0 <= k < ts.len() ==> tree_ok(#[trigger] ts[k]),
                    out@.len() == i,
                    list_ok(ts) ==> contents_of(out@) == json_list(trees_of(items@.take(i as int))),
                decreases items.len() - i,
            {
                proof {
                    assert(decreases_to!(*v => v->List_0));
                    assert(decreases_to!(v->List_0 => (v->List_0)@));
                    assert(decreases_to!((v->List_0)@ => (v->List_0)@[i as int]));
                    assert(decreases_to!(*v => (*items)@[i as int]));
                }
                let x = to_json(&items[i]);
                let ghost before = out@;
                out.push(x);
                proof {
                    let t0 = trees_of(items@.take(i as int));
                    assert(items@.take(i + 1).drop_last() =~= items@.take(i as int));
                    assert(items@.take(i + 1).last() == items@[i as int]);
                    assert(trees_of(items@.take(i + 1)) == t0.push(tree_of(items@[i as int])));
                    assert(t0.push(tree_of(items@[i as int])).drop_last() =~= t0);
                    assert(contents_of(out@) =~= contents_of(before).push(json_contents(x)));
                    if list_ok(ts) {
                        assert(tree_ok(ts[i as int]));
                    }
                }
                i = i + 1;
            }
            proof {
                assert(items@.take(items.len() as int) =~= items@);
            }
            json_array(out)
        },
        XmlValue::Node(entries) => {
            let ghost es = entries_of(entries@);
            proof {
                lemma_entries_of(entries@);
                lemma_entries_ok(es);
            }
            let mut out: Vec<(String, serde_json::Value)> = Vec::new();
            let mut i: usize = 0;
            while i < entries.len()
                invariant
                    i <= entries.len(),
                    *v == XmlValue::Node(*entries),
                    es == entries_of(entries@),
                    es.len() == entries.len(),
                    forall|k: int| 0 <= k < entries.len() ==> #[trigger] es[k] == (entries@[k].0@, tree_of(entries@[k].1)),
                    entries_ok(es) <==> forall|k: int| 0 <= k < es.len() ==> tree_ok(#[trigger] es[k].1),
                    out@.len() == i,
                    forall|k: int| 0 <= k < i ==> #[trigger] out@[k].0@ == entries@[k].0@,
                    entries_ok(es) ==> pairs_map(entry_contents(out@)) == json_entries(entries_of(entries@.take(i as int))),
                decreases entries.len() - i,
            {
                let key = entries[i].0.clone();
                proof {
                    assert(decreases_to!(*v => v->Node_0));
                    assert(decreases_to!(v->Node_0 => (v->Node_0)@));
                    assert(decreases_to!((v->Node_0)@ => (v->Node_0)@[i as int]));
                    assert(decreases_to!((v->Node_0)@[i as int] => (v->Node_0)@[i as int].1));
                    assert(decreases_to!(*v => (*entries)@[i as int].1));
                }
                let x = to_json(&entries[i].1);
                let ghost before = out@;
                out.push((key, x));
                proof {
                    let e0 = entries_of(entries@.take(i as int));
                    let item = entries@[i as int];
                    assert(entries@.take(i + 1) =~= entries@.take(i as int).push(item));
                    lemma_entries_push(entries@.take(i as int), item);
                    assert(e0.push((item.0@, tree_of(item.1))).drop_last() =~= e0);
                    assert(key@ == item.0@);
                    assert(entry_contents(out@) =~= entry_contents(before).push((key@, json_contents(x))));
                    assert(entry_contents(out@).drop_last() =~= entry_contents(before));
                    if entries_ok(es) {
                        assert(tree_ok(es[i as int].1));
                    }
                }
                i = i + 1;
            }
            proof {
                assert(entries@.take(entries.len() as int) =~= entries@);
                if tree_ok(tree_of(*v)) {
                    assert forall|a: int, b: int| 0 <= a < b < out@.len() implies out@[a].0@ != out@[b].0@ by {
                        assert(es[a].0 != es[b].0);
                    }
                }
            }
            json_object(out)
        },
    }
}

/// `d` is the document for the xml text `src`: when the reader gets through
/// it and finds a tag, a tree whose json holds the document's tree (see
/// `document_tree`); else `Unsupported` saying which went wrong.
pub open spec fn xml_document(src: Seq<char>, d: Doc) -> bool {
    match xml_root(xml_events(src, true)) {
        Err(m) => d matches Doc::Unsupported { ext, message } && ext@ == "xml"@ && message@
            == "Битый xml: "@ + m,
        Ok(None) => d matches Doc::Unsupported { ext, message } && ext@ == "xml"@ && message@
            == "В файле нет ни одного тега"@,
        Ok(Some(root)) => d matches Doc::Tree { json } && json_contents(json) == json_model(
            document_tree(root),
        ),
    }
}

/// xml text → `Tree`. Attributes become `@name` keys, text becomes `#текст`,
/// repeated tags become arrays. A reader error or a file without a single tag
/// gives `Unsupported`.
pub fn from_xml(src: &str) -> (r: Doc)
    ensures
        xml_document(src@, r),
{
    let events = read_all_xml(src, true);
    match xml_tree(&events) {
        Err(m) => {
            let mut message = owned("Битый xml: ");
            message.append(m.as_str());
            Doc::Unsupported { ext: owned("xml"), message }
        },
        Ok(None) => Doc::Unsupported { ext: owned("xml"), message: owned("В файле нет ни одного тега") },
        Ok(Some(root)) => {
            let v = document_value(&root);
            proof {
                lemma_document_ok(el_model(root));
            }
            Doc::Tree { json: to_json(&v) }
        },
    }
}

} // verus!
